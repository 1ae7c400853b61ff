use dmoji::scanner::{Scanner, Sequence};

fn literal_of(seq: &Sequence) -> &str {
    match seq {
        Sequence::Literal(s) => s.as_str(),
        Sequence::Range(_, _) => panic!("expected a literal sequence"),
    }
}

#[test]
fn single_codepoint_line_yields_one_record() {
    let scanner = Scanner::new();
    let recs = scanner.emoji("1F600;fully-qualified # GRINNING FACE");
    assert_eq!(recs.len(), 1);
    assert_eq!(recs[0].description, "GRINNING FACE");
    assert_eq!(literal_of(&recs[0].sequence), "\u{1F600}");
}

#[test]
fn multi_codepoint_literal_concatenates_in_order() {
    let scanner = Scanner::new();
    let recs = scanner.emoji(
        "1F469 200D 2764 FE0F 200D 1F468;fully-qualified # couple with heart",
    );
    assert_eq!(recs.len(), 1);
    assert_eq!(recs[0].description, "couple with heart");
    assert_eq!(
        literal_of(&recs[0].sequence),
        "\u{1F469}\u{200D}\u{2764}\u{FE0F}\u{200D}\u{1F468}",
    );
}

#[test]
fn comment_and_blank_lines_yield_nothing() {
    let scanner = Scanner::new();
    assert_eq!(scanner.emoji("# comment text").len(), 0);
    assert_eq!(scanner.emoji("").len(), 0);
    assert_eq!(scanner.emoji("\n\n# a\n# b\n\n").len(), 0);
    // a comment that happens to hold a semicolon still has no later '#'
    assert_eq!(scanner.emoji("# note; beware").len(), 0);
}

#[test]
fn non_hex_token_yields_nothing() {
    let scanner = Scanner::new();
    assert_eq!(scanner.emoji("1F46G;fully-qualified # bad").len(), 0);
    assert_eq!(scanner.emoji("1F600 1F46G;x # bad token later").len(), 0);
}

#[test]
fn lowercase_hex_is_rejected() {
    let scanner = Scanner::new();
    assert_eq!(scanner.emoji("1f600;x # lower").len(), 0);
}

#[test]
fn line_without_hash_after_semicolon_yields_nothing() {
    let scanner = Scanner::new();
    assert_eq!(scanner.emoji("1F600;fully-qualified").len(), 0);
    assert_eq!(scanner.emoji("1F600#x;y").len(), 0);
}

#[test]
fn description_runs_from_first_hash_to_line_end() {
    let scanner = Scanner::new();
    let recs = scanner.emoji("1F600;x # A # B");
    assert_eq!(recs.len(), 1);
    assert_eq!(recs[0].description, "A # B");
}

#[test]
fn fields_are_trimmed() {
    let scanner = Scanner::new();
    let recs = scanner.emoji("  1F600  ;  fully-qualified  #   padded desc  ");
    assert_eq!(recs.len(), 1);
    assert_eq!(recs[0].description, "padded desc");
    assert_eq!(literal_of(&recs[0].sequence), "\u{1F600}");
}

#[test]
fn crlf_line_endings_are_handled() {
    let scanner = Scanner::new();
    let recs = scanner.emoji("1F600;x # A\r\n1F601;x # B\r\n");
    assert_eq!(recs.len(), 2);
    assert_eq!(recs[0].description, "A");
    assert_eq!(recs[1].description, "B");
}

#[test]
fn scan_seq_classifies_a_range() {
    let scanner = Scanner::new();
    match scanner.scan_seq("1F466..1F469") {
        Some(Sequence::Range(low, high)) => {
            assert_eq!(low, '\u{1F466}');
            assert_eq!(high, '\u{1F469}');
        }
        _ => panic!("expected a range"),
    }
}

#[test]
fn scan_seq_rejects_malformed_ranges() {
    let scanner = Scanner::new();
    assert!(scanner.scan_seq("1F466.1F469").is_none());
    assert!(scanner.scan_seq("..1F469").is_none());
    assert!(scanner.scan_seq("1F466..").is_none());
    assert!(scanner.scan_seq("1F466..1F469..1F470").is_none());
    assert!(scanner.scan_seq("").is_none());
}

#[test]
fn scan_seq_rejects_invalid_scalar_values() {
    let scanner = Scanner::new();
    // the surrogate block is not valid
    assert!(scanner.scan_seq("D800").is_none());
    assert!(scanner.scan_seq("DFFF").is_none());
    // beyond the last code point
    assert!(scanner.scan_seq("110000").is_none());
    // far too large for any code point
    assert!(scanner.scan_seq("FFFFFFFFFFFFFFFF").is_none());
    // the boundaries themselves are fine
    assert!(scanner.scan_seq("D7FF").is_some());
    assert!(scanner.scan_seq("E000").is_some());
    assert!(scanner.scan_seq("10FFFF").is_some());
}

#[test]
fn leading_zeros_are_accepted() {
    let scanner = Scanner::new();
    let recs = scanner.emoji("0001F600;x # zeros");
    assert_eq!(recs.len(), 1);
    assert_eq!(literal_of(&recs[0].sequence), "\u{1F600}");
}

#[test]
fn scan_line_skips_lines_with_empty_first_field() {
    let scanner = Scanner::new();
    assert!(scanner.scan_line(";fully-qualified # d").is_none());
    assert!(scanner.scan_line("   ;x # d").is_none());
}
