use pdf2csv::{
    assemble_table, parse_parcels, parse_print_key_code, scan_blocks, split_lines, ParseError,
    PrintKeyCode, MARKER_RUN,
};

fn key(section: &str, block: &str, lot: &str) -> PrintKeyCode {
    PrintKeyCode::All {
        section: section.to_string(),
        block: block.to_string(),
        lot: lot.to_string(),
    }
}

fn band() -> String {
    "*".repeat(MARKER_RUN)
}

fn marker(code: &str) -> String {
    format!("{} {} {}", band(), code, "*".repeat(16))
}

fn chars(s: &str) -> Vec<char> {
    s.chars().collect()
}

#[test]
fn test_parse_print_key() {
    assert_eq!(parse_print_key_code("123.456-1-2").unwrap(), key("123.456", "1", "2"));
    assert_eq!(parse_print_key_code("123.456-1-2").unwrap(), key("123.456", "1", "2"));
    assert_eq!(
        parse_print_key_code("186.000-0001-001").unwrap(),
        key("186.000", "0001", "001")
    );
}

#[test]
fn key_components_are_kept_verbatim() {
    let k = parse_print_key_code("0001.10-0-.5").unwrap();
    assert_eq!(k.section(), "0001.10");
    assert_eq!(k.block(), "0");
    assert_eq!(k.lot(), ".5");
    assert_ne!(k, key("1.1", "0", "0.5"));
}

#[test]
fn malformed_key_codes_are_rejected() {
    for bad in [
        "", "123", "123.456", "1-2", "1-2-3-4", "1-a-3", "1-2-3abc", "-1-2", "1--2", "1-2-",
        " 1-2-3", "1 -2-3", "1_2_3",
    ] {
        match parse_print_key_code(bad) {
            Err(ParseError::MalformedKeyCode { text }) => assert_eq!(text, bad),
            other => panic!("{:?} gave {:?}", bad, other),
        }
    }
}

#[test]
fn document_without_delimiters_gives_empty_table() {
    let t = parse_parcels("just text\nmore text\n").unwrap();
    assert!(t.is_empty());
    assert_eq!(t.len(), 0);
    let t = parse_parcels("").unwrap();
    assert_eq!(t.len(), 0);
}

#[test]
fn two_parcels_are_split_at_their_markers() {
    let doc = format!("{}\nLine A\nLine B\n{}\nLine C\n", marker("123-1-1"), marker("123-2-1"));
    let t = parse_parcels(&doc).unwrap();
    assert_eq!(t.len(), 2);
    assert_eq!(t.get(&key("123", "1", "1")).unwrap(), "Line A\nLine B");
    assert_eq!(t.get(&key("123", "2", "1")).unwrap(), "Line C");
    assert!(t.get(&key("123", "3", "1")).is_none());
    assert!(t.contains_key(&key("123", "1", "1")));
    let (k, text) = t.entry(1);
    assert_eq!(*k, key("123", "2", "1"));
    assert_eq!(text, "Line C");
}

#[test]
fn duplicate_key_fails() {
    let doc = format!("{}\nLine A\n{}\nLine B\n", marker("123-1-1"), marker("123-1-1"));
    match parse_parcels(&doc) {
        Err(ParseError::DuplicateKeyCode { key: k }) => assert_eq!(k, key("123", "1", "1")),
        other => panic!("expected a duplicate key, got {:?}", other),
    }
}

#[test]
fn malformed_marker_fails_with_its_text() {
    let doc = format!("{}\nLine A\n{}\nLine B\n", marker("123-1-1"), marker("12x-1-1"));
    match parse_parcels(&doc) {
        Err(ParseError::MalformedKeyCode { text }) => assert_eq!(text, "12x-1-1"),
        other => panic!("expected a malformed key, got {:?}", other),
    }
}

#[test]
fn reparsing_gives_identical_tables() {
    let doc = format!("{}\nA\n{}\nB\nC\n", marker("1-1-1"), marker("1-1-2"));
    let a = parse_parcels(&doc).unwrap();
    let b = parse_parcels(&doc).unwrap();
    assert_eq!(a.len(), b.len());
    for i in 0..a.len() {
        assert_eq!(a.entry(i), b.entry(i));
    }
}

#[test]
fn padding_bands_are_dropped() {
    let doc = format!(
        "{}\nLine A\n{}\nstray line\n{}\nLine C\n{}\n",
        marker("5-1-1"),
        band(),
        marker("5-1-2"),
        band()
    );
    let t = parse_parcels(&doc).unwrap();
    assert_eq!(t.len(), 2);
    assert_eq!(t.get(&key("5", "1", "1")).unwrap(), "Line A");
    assert_eq!(t.get(&key("5", "1", "2")).unwrap(), "Line C");
}

#[test]
fn band_of_stars_with_spaces_is_no_key() {
    let doc = format!("{}   {}\nLine A\n", band(), band());
    let t = parse_parcels(&doc).unwrap();
    assert_eq!(t.len(), 0);
}

#[test]
fn lines_before_first_marker_are_dropped_and_trailing_lines_kept() {
    let doc = format!("header\n{}\nA\n\n  B  \n", marker("7-7-7"));
    let t = parse_parcels(&doc).unwrap();
    assert_eq!(t.len(), 1);
    assert_eq!(t.get(&key("7", "7", "7")).unwrap(), "A\n\n  B  ");
}

#[test]
fn consecutive_markers_give_empty_block() {
    let doc = format!("{}\n{}\nX", marker("1-1-1"), marker("1-1-2"));
    let t = parse_parcels(&doc).unwrap();
    assert_eq!(t.get(&key("1", "1", "1")).unwrap(), "");
    assert_eq!(t.get(&key("1", "1", "2")).unwrap(), "X");
}

#[test]
fn carriage_returns_end_lines() {
    let doc = format!("{}\r\nLine A\r\nLine B\r\n", marker("9-9-9"));
    let t = parse_parcels(&doc).unwrap();
    assert_eq!(t.get(&key("9", "9", "9")).unwrap(), "Line A\nLine B");
}

#[test]
fn short_star_runs_are_not_delimiters() {
    let doc = format!("{}\nA\n**** 2-2-2 ****\nB\n", marker("1-1-1"));
    let t = parse_parcels(&doc).unwrap();
    assert_eq!(t.len(), 1);
    assert_eq!(t.get(&key("1", "1", "1")).unwrap(), "A\n**** 2-2-2 ****\nB");
}

#[test]
fn scanner_takes_any_run_length() {
    let lines = split_lines(&chars("*** 1-2-3 ***\nbody\n***\nlost\n*** 4-5-6 ***"));
    assert_eq!(lines.len(), 5);
    let blocks = scan_blocks(&lines, 3);
    assert_eq!(blocks.len(), 2);
    assert_eq!(blocks[0], (chars("1-2-3"), chars("body")));
    assert_eq!(blocks[1], (chars("4-5-6"), chars("")));
    let t = assemble_table(&blocks).unwrap();
    assert_eq!(t.get(&key("1", "2", "3")).unwrap(), "body");
    assert_eq!(t.get(&key("4", "5", "6")).unwrap(), "");
    assert_eq!(scan_blocks(&lines, 4).len(), 0);
}

#[test]
fn split_lines_drops_only_a_final_empty_line() {
    assert_eq!(split_lines(&chars("")).len(), 0);
    assert_eq!(split_lines(&chars("a\n")), vec![chars("a")]);
    assert_eq!(split_lines(&chars("a\n\nb")), vec![chars("a"), chars(""), chars("b")]);
}

#[test]
fn errors_name_their_reason_and_subject() {
    let e = parse_print_key_code("1-x-2").unwrap_err();
    assert_eq!(e.message(), "malformed key code: 1-x-2");
    let doc = format!("{}\n{}\n", marker("4.1-02-3"), marker("4.1-02-3"));
    let e = parse_parcels(&doc).unwrap_err();
    assert_eq!(e.message(), "duplicate key code: 4.1-02-3");
}
