use wordcount::args::Args;
use wordcount::args::ParseResult;
use wordcount::counts::scan;
use wordcount::counts::total;
use wordcount::counts::WordCount;
use wordcount::render::invalid_option_message;
use wordcount::render::open_error_message;
use wordcount::render::render;
use wordcount::render::to_decimal;
use wordcount::render::unrecognized_option_message;

fn parse_tokens(toks: &[&str]) -> ParseResult {
    Args::parse(toks.iter().map(|s| s.to_string()).collect())
}

fn parsed(toks: &[&str]) -> Args {
    match parse_tokens(toks) {
        ParseResult::Parsed(a) => a,
        _ => panic!("expected a parsed request"),
    }
}

#[test]
fn default_flags_and_files() {
    let a = parsed(&["file.txt"]);
    assert!(a.bytes && a.lines && a.words);
    assert!(!a.chars);
    assert_eq!(a.files, vec!["file.txt".to_string()]);
}

#[test]
fn no_tokens_defaults() {
    let a = parsed(&[]);
    assert!(a.bytes && a.lines && a.words && !a.chars);
    assert!(a.files.is_empty());
}

#[test]
fn short_cluster() {
    let a = parsed(&["-lw", "a.txt"]);
    assert!(a.lines && a.words);
    assert!(!a.bytes && !a.chars);
    assert_eq!(a.files, vec!["a.txt".to_string()]);
}

#[test]
fn lines_words_only() {
    let a = parsed(&["-l", "-w", "file.txt"]);
    assert!(a.lines && a.words);
    assert!(!a.bytes && !a.chars);
}

#[test]
fn long_options() {
    let a = parsed(&["--chars", "--bytes"]);
    assert!(a.chars && a.bytes);
    assert!(!a.lines && !a.words);
    assert!(a.files.is_empty());
}

#[test]
fn all_four_short_flags() {
    let a = parsed(&["-cmlw"]);
    assert!(a.bytes && a.chars && a.lines && a.words);
}

#[test]
fn help_token() {
    assert!(matches!(parse_tokens(&["--help"]), ParseResult::Help));
    assert!(matches!(
        parse_tokens(&["--bytes", "--help"]),
        ParseResult::Help
    ));
}

#[test]
fn invalid_before_help_wins() {
    assert!(matches!(
        parse_tokens(&["-x", "--help"]),
        ParseResult::InvalidOption('x')
    ));
}

#[test]
fn unrecognized_long_option() {
    match parse_tokens(&["--foo"]) {
        ParseResult::UnrecognizedOption(o) => assert_eq!(o, "--foo"),
        _ => panic!("expected an unrecognized option"),
    }
    match parse_tokens(&["--"]) {
        ParseResult::UnrecognizedOption(o) => assert_eq!(o, "--"),
        _ => panic!("expected an unrecognized option"),
    }
}

#[test]
fn invalid_short_option() {
    assert!(matches!(
        parse_tokens(&["-lx"]),
        ParseResult::InvalidOption('x')
    ));
}

#[test]
fn bare_dash_suppresses_defaults() {
    let a = parsed(&["-", "file.txt"]);
    assert!(!a.bytes && !a.chars && !a.lines && !a.words);
    assert_eq!(a.files, vec!["file.txt".to_string()]);
}

#[test]
fn multibyte_single_char_is_operand() {
    let a = parsed(&["\u{e9}"]);
    assert_eq!(a.files, vec!["\u{e9}".to_string()]);
    assert!(a.bytes && a.lines && a.words && !a.chars);
}

#[test]
fn scan_sample() {
    let (lines, words, chars, bytes) = scan("a b\nc\n");
    assert_eq!((lines, words, chars, bytes), (2, 3, 6, 6));
}

#[test]
fn scan_bytes_exceed_chars_outside_ascii() {
    let (_, _, chars, bytes) = scan("h\u{e9}llo");
    assert_eq!(chars, 5);
    assert_eq!(bytes, 6);
    assert!(bytes > chars);
}

#[test]
fn scan_bytes_equal_chars_on_ascii() {
    let (_, _, chars, bytes) = scan("plain ascii text");
    assert_eq!(bytes, chars);
}

#[test]
fn scan_empty() {
    assert_eq!(scan(""), (0, 0, 0, 0));
}

#[test]
fn scan_line_edges() {
    assert_eq!(scan("a\nb").0, 2);
    assert_eq!(scan("a\nb\n").0, 2);
    assert_eq!(scan("\n\n").0, 2);
    assert_eq!(scan("\n\n").1, 0);
}

#[test]
fn words_invariant_under_extra_whitespace() {
    let base = scan("one two three").1;
    assert_eq!(base, 3);
    assert_eq!(scan("one  two\t three").1, base);
    assert_eq!(scan("  one two three  ").1, base);
    assert_eq!(scan("one\u{2003}two\u{a0}three").1, base);
}

#[test]
fn wordcount_parse_counts_enabled_metrics() {
    let a = parsed(&["file.txt"]);
    let wc = WordCount::parse("file.txt".to_string(), "a b\nc\n", &a);
    assert_eq!(wc.lines, 2);
    assert_eq!(wc.words, 3);
    assert_eq!(wc.bytes, 6);
    assert_eq!(wc.chars, 0);
    assert_eq!(wc.filename, "file.txt");
}

#[test]
fn wordcount_parse_chars_only() {
    let a = parsed(&["-m", "f"]);
    let wc = WordCount::parse("f".to_string(), "h\u{e9}llo", &a);
    assert_eq!(wc.chars, 5);
    assert_eq!(wc.lines, 0);
    assert_eq!(wc.words, 0);
    assert_eq!(wc.bytes, 0);
}

#[test]
fn default_render_single_source() {
    let a = parsed(&["file.txt"]);
    let wc = WordCount::parse("file.txt".to_string(), "a b\nc\n", &a);
    let out = render(&[Ok(wc)], &a);
    assert_eq!(out, "2 3 6 file.txt\n");
}

#[test]
fn render_lines_words_only() {
    let a = parsed(&["-l", "-w", "file.txt"]);
    let wc = WordCount::parse("file.txt".to_string(), "a b\nc\n", &a);
    let out = render(&[Ok(wc)], &a);
    assert_eq!(out, "2 3 file.txt\n");
}

#[test]
fn total_sums_successes_only() {
    let a = parsed(&["x.txt", "y.txt"]);
    let w1 = WordCount::parse("x.txt".to_string(), "one two\n", &a);
    let w2 = WordCount::parse("y.txt".to_string(), "three\n", &a);
    let results = vec![
        Ok(w1),
        Err("wc: gone: No such file or directory".to_string()),
        Ok(w2),
    ];
    let t = total(&results);
    assert_eq!(t.lines, 2);
    assert_eq!(t.words, 3);
    assert_eq!(t.chars, 0);
    assert_eq!(t.bytes, 14);
    assert_eq!(t.filename, "total");
}

#[test]
fn render_appends_total_for_many_sources() {
    let a = parsed(&["a.txt", "b.txt"]);
    let w1 = WordCount::parse("a.txt".to_string(), "one two\n", &a);
    let w2 = WordCount::parse("b.txt".to_string(), "three\n", &a);
    let out = render(&[Ok(w1), Ok(w2)], &a);
    assert_eq!(out, " 1  2  8 a.txt\n 1  1  6 b.txt\n 2  3 14 total\n");
}

#[test]
fn render_interleaves_failures_and_total() {
    let a = parsed(&["a.txt", "missing.txt"]);
    let w1 = WordCount::parse("a.txt".to_string(), "one two\n", &a);
    let msg = open_error_message("missing.txt");
    let out = render(&[Ok(w1), Err(msg)], &a);
    assert_eq!(
        out,
        "1 2 8 a.txt\nwc: missing.txt: No such file or directory\n1 2 8 total\n"
    );
}

#[test]
fn render_no_total_for_single_source() {
    let a = parsed(&["a.txt"]);
    let w1 = WordCount::parse("a.txt".to_string(), "one two\n", &a);
    let out = render(&[Ok(w1)], &a);
    assert!(!out.contains("total"));
    assert_eq!(out, "1 2 8 a.txt\n");
}

#[test]
fn render_failure_row_verbatim() {
    let a = parsed(&["missing.txt"]);
    let msg = open_error_message("missing.txt");
    let out = render(&[Err(msg.clone())], &a);
    assert_eq!(out, format!("{}\n", msg));
}

#[test]
fn render_row_uses_offset() {
    let a = parsed(&["file.txt"]);
    let wc = WordCount::parse("file.txt".to_string(), "a b\nc\n", &a);
    let row = wc.render_row(3, &a);
    assert_eq!(row, "  2   3   6 file.txt\n");
}

#[test]
fn open_error_message_exact() {
    assert_eq!(
        open_error_message("missing.txt"),
        "wc: missing.txt: No such file or directory"
    );
}

#[test]
fn option_error_messages_exact() {
    assert_eq!(
        unrecognized_option_message("--foo"),
        "wc: unrecognized option '--foo'"
    );
    assert_eq!(invalid_option_message('x'), "wc: invalid option -- 'x'");
}

#[test]
fn render_nothing_for_no_sources() {
    let a = parsed(&[]);
    assert_eq!(render(&[], &a), "");
    let t = total(&[]);
    assert_eq!((t.lines, t.words, t.chars, t.bytes), (0, 0, 0, 0));
}

#[test]
fn render_standard_input_row_has_empty_name() {
    let a = parsed(&[]);
    let wc = WordCount::parse(String::new(), "a b\nc\n", &a);
    assert_eq!(render(&[Ok(wc)], &a), "2 3 6 \n");
}

#[test]
fn decimal_digits() {
    assert_eq!(to_decimal(0), vec!['0']);
    assert_eq!(to_decimal(9), vec!['9']);
    assert_eq!(to_decimal(907), vec!['9', '0', '7']);
}
