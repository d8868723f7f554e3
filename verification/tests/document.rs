use text_buffer::document::EncodingError;
use text_buffer::highlighting::Type;
use text_buffer::{Document, Position, SearchDirection};

fn texts(document: &Document) -> Vec<String> {
    let mut out = Vec::new();
    let mut i = 0;
    while let Some(row) = document.row(i) {
        out.push(row.as_str().to_string());
        i += 1;
    }
    out
}

#[test]
fn default_document_is_empty() {
    let document = Document::default();
    assert!(document.is_empty());
    assert_eq!(document.len(), 0);
    assert!(!document.is_dirty());
    assert!(document.filename.is_none());
    assert!(document.row(0).is_none());
}

#[test]
fn load_splits_on_line_feeds() {
    let document = Document::from_text("abc\ndef", "notes.txt");
    assert_eq!(texts(&document), vec!["abc", "def"]);
    assert_eq!(document.len(), 2);
    assert!(!document.is_empty());
    assert!(!document.is_dirty());
    assert_eq!(document.filename.as_deref(), Some("notes.txt"));
}

#[test]
fn load_has_no_empty_line_for_a_final_line_feed() {
    assert_eq!(texts(&Document::from_text("abc\ndef\n", "f")), vec!["abc", "def"]);
    assert_eq!(texts(&Document::from_text("abc\n\n", "f")), vec!["abc", ""]);
    assert_eq!(texts(&Document::from_text("\n", "f")), vec![""]);
    assert!(Document::from_text("", "f").is_empty());
}

#[test]
fn load_takes_a_carriage_return_with_its_line_feed() {
    assert_eq!(texts(&Document::from_text("a\r\nb\r\n", "f")), vec!["a", "b"]);
    assert_eq!(texts(&Document::from_text("a\r\r\nb\rc\r", "f")), vec!["a\r", "b\rc\r"]);
}

#[test]
fn load_highlights_every_row() {
    let document = Document::from_text("a1\n22", "f");
    assert_eq!(document.row(0).unwrap().highlighting(), &vec![Type::Plain, Type::Number]);
    assert_eq!(document.row(1).unwrap().highlighting(), &vec![Type::Number, Type::Number]);
}

#[test]
fn load_from_bytes() {
    let document = Document::from_bytes("h\u{e9}\nx".as_bytes(), "f").unwrap();
    assert_eq!(texts(&document), vec!["h\u{e9}", "x"]);
    assert_eq!(document.filename.as_deref(), Some("f"));
    assert!(!document.is_dirty());
}

#[test]
fn load_from_bytes_rejects_bad_encoding() {
    assert_eq!(Document::from_bytes(&[0x61, 0xff, 0x62], "f").err(), Some(EncodingError));
    assert_eq!(Document::from_bytes(&[0xc3], "f").err(), Some(EncodingError));
    assert!(Document::from_bytes(&[], "f").unwrap().is_empty());
}

#[test]
fn contents_ends_every_row_with_a_line_feed() {
    assert_eq!(Document::from_text("abc\ndef", "f").contents(), "abc\ndef\n");
    assert_eq!(Document::from_text("abc\ndef\n", "f").contents(), "abc\ndef\n");
    assert_eq!(Document::default().contents(), "");
    assert_eq!(Document::from_text("\n\n", "f").contents(), "\n\n");
}

#[test]
fn save_then_reload_gives_the_same_lines() {
    for contents in ["", "abc", "abc\ndef", "abc\ndef\n", "a\r\nb\r\n", "\n\nx\n", "h\u{e9}\u{301}\n1\t2"] {
        let first = Document::from_text(contents, "f");
        let again = Document::from_text(&first.contents(), "f");
        assert_eq!(texts(&again), texts(&first), "{:?}", contents);
        let bytes = first.contents().into_bytes();
        let third = Document::from_bytes(&bytes, "f").unwrap();
        assert_eq!(texts(&third), texts(&first));
    }
}

#[test]
fn reload_drops_a_carriage_return_left_at_a_line_end() {
    let first = Document::from_text("a\r\r\n", "f");
    assert_eq!(texts(&first), vec!["a\r"]);
    let again = Document::from_text(&first.contents(), "f");
    assert_eq!(texts(&again), vec!["a"]);
}

#[test]
fn delete_at_line_end_merges_lines() {
    let mut document = Document::from_text("abc\ndef", "f");
    document.delete(&Position { x: 3, y: 0 });
    assert_eq!(document.len(), 1);
    assert_eq!(texts(&document), vec!["abcdef"]);
    assert!(document.is_dirty());
    assert_eq!(document.row(0).unwrap().highlighting().len(), 6);
}

#[test]
fn delete_inside_a_line() {
    let mut document = Document::from_text("abc\nd1f", "f");
    document.delete(&Position { x: 0, y: 1 });
    assert_eq!(texts(&document), vec!["abc", "1f"]);
    assert_eq!(document.row(1).unwrap().highlighting(), &vec![Type::Number, Type::Plain]);
    assert!(document.is_dirty());
}

#[test]
fn delete_at_the_end_of_the_last_line_changes_no_text() {
    let mut document = Document::from_text("abc\ndef", "f");
    document.delete(&Position { x: 3, y: 1 });
    assert_eq!(texts(&document), vec!["abc", "def"]);
    assert!(document.is_dirty());
}

#[test]
fn delete_behind_the_last_line_only_marks_modified() {
    let mut document = Document::from_text("abc", "f");
    document.delete(&Position { x: 0, y: 1 });
    assert_eq!(texts(&document), vec!["abc"]);
    assert!(document.is_dirty());
    let mut document = Document::from_text("abc", "f");
    document.delete(&Position { x: 0, y: 5 });
    assert_eq!(texts(&document), vec!["abc"]);
    assert!(document.is_dirty());
}

#[test]
fn insert_newline_splits_a_line() {
    let mut document = Document::from_text("ab", "f");
    document.insert_newline(&Position { x: 1, y: 0 });
    assert_eq!(texts(&document), vec!["a", "b"]);
    assert_eq!(document.len(), 2);
    assert!(!document.is_dirty());
}

#[test]
fn insert_newline_at_the_edges_of_a_line() {
    let mut document = Document::from_text("ab\ncd", "f");
    document.insert_newline(&Position { x: 0, y: 0 });
    assert_eq!(texts(&document), vec!["", "ab", "cd"]);
    document.insert_newline(&Position { x: 2, y: 2 });
    assert_eq!(texts(&document), vec!["", "ab", "cd", ""]);
    document.insert_newline(&Position { x: 9, y: 1 });
    assert_eq!(texts(&document), vec!["", "ab", "", "cd", ""]);
}

#[test]
fn insert_newline_behind_the_last_line() {
    let mut document = Document::from_text("ab", "f");
    document.insert_newline(&Position { x: 0, y: 1 });
    assert_eq!(texts(&document), vec!["ab", ""]);
    document.insert_newline(&Position { x: 7, y: 2 });
    assert_eq!(texts(&document), vec!["ab", "", ""]);
    document.insert_newline(&Position { x: 0, y: 4 });
    assert_eq!(texts(&document), vec!["ab", "", ""]);
}

#[test]
fn insert_newline_into_an_empty_document_adds_one_line() {
    let mut document = Document::default();
    document.insert_newline(&Position { x: 0, y: 0 });
    assert_eq!(document.len(), 1);
    assert!(document.row(0).unwrap().is_empty());
    assert!(document.row(1).is_none());
    assert!(!document.is_dirty());
    let mut document = Document::default();
    document.insert(&Position { x: 0, y: 0 }, '\n');
    assert_eq!(texts(&document), vec![""]);
    assert!(document.is_dirty());
}

#[test]
fn insert_newline_highlights_both_halves() {
    let mut document = Document::from_text("a1b2", "f");
    document.highlight(Some("1b"));
    document.insert_newline(&Position { x: 2, y: 0 });
    assert_eq!(texts(&document), vec!["a1", "b2"]);
    assert_eq!(document.row(0).unwrap().highlighting(), &vec![Type::Plain, Type::Number]);
    assert_eq!(document.row(1).unwrap().highlighting(), &vec![Type::Plain, Type::Number]);
}

#[test]
fn insert_puts_a_scalar_into_a_line() {
    let mut document = Document::from_text("abc\ndef", "f");
    document.insert(&Position { x: 1, y: 1 }, '7');
    assert_eq!(texts(&document), vec!["abc", "d7ef"]);
    assert!(document.is_dirty());
    assert_eq!(
        document.row(1).unwrap().highlighting(),
        &vec![Type::Plain, Type::Number, Type::Plain, Type::Plain]
    );
}

#[test]
fn insert_behind_the_last_line_adds_a_line() {
    let mut document = Document::default();
    document.insert(&Position { x: 0, y: 0 }, 'a');
    assert_eq!(texts(&document), vec!["a"]);
    document.insert(&Position { x: 5, y: 1 }, 'b');
    assert_eq!(texts(&document), vec!["a", "b"]);
    assert!(document.is_dirty());
}

#[test]
fn insert_beyond_the_document_only_marks_modified() {
    let mut document = Document::from_text("abc", "f");
    document.insert(&Position { x: 0, y: 2 }, 'x');
    assert_eq!(texts(&document), vec!["abc"]);
    assert!(document.is_dirty());
}

#[test]
fn insert_line_feed_breaks_the_line() {
    let mut document = Document::from_text("ab", "f");
    document.insert(&Position { x: 1, y: 0 }, '\n');
    assert_eq!(texts(&document), vec!["a", "b"]);
    assert!(document.is_dirty());
}

#[test]
fn insert_tab_gives_four_spaces() {
    let mut document = Document::from_text("ab", "f");
    document.insert(&Position { x: 1, y: 0 }, '\t');
    assert_eq!(texts(&document), vec!["a    b"]);
    let mut document = Document::default();
    document.insert(&Position { x: 0, y: 0 }, '\t');
    assert_eq!(texts(&document), vec!["    "]);
}

#[test]
fn successful_save_clears_the_flag() {
    let mut document = Document::from_text("ab", "f");
    document.insert(&Position { x: 0, y: 0 }, 'x');
    assert!(document.is_dirty());
    document.finish_save(true);
    assert!(!document.is_dirty());
    assert_eq!(texts(&document), vec!["xab"]);
    assert_eq!(document.filename.as_deref(), Some("f"));
}

#[test]
fn failed_save_leaves_the_flag() {
    let mut document = Document::from_text("ab", "f");
    document.finish_save(false);
    assert!(!document.is_dirty());
    document.delete(&Position { x: 0, y: 0 });
    document.finish_save(false);
    assert!(document.is_dirty());
    assert_eq!(texts(&document), vec!["b"]);
}

#[test]
fn save_request_names_file_and_text() {
    let mut document = Document::from_text("ab
cd", "notes.txt");
    document.insert(&Position { x: 2, y: 1 }, '!');
    assert_eq!(
        document.save_request(),
        Some(("notes.txt".to_string(), "ab
cd!
".to_string()))
    );
    assert!(document.is_dirty());
}

#[test]
fn save_request_of_an_unnamed_document_is_empty() {
    let mut document = Document::default();
    document.insert(&Position { x: 0, y: 0 }, 'a');
    assert_eq!(document.save_request(), None);
    document.finish_save(true);
    assert!(!document.is_dirty());
    document.filename = Some("later.txt".to_string());
    assert_eq!(document.save_request(), Some(("later.txt".to_string(), "a
".to_string())));
}

#[test]
fn highlight_reaches_every_row() {
    let mut document = Document::from_text("xab\nab1", "f");
    document.highlight(Some("ab"));
    assert_eq!(
        document.row(0).unwrap().highlighting(),
        &vec![Type::Plain, Type::Search, Type::Search]
    );
    assert_eq!(
        document.row(1).unwrap().highlighting(),
        &vec![Type::Search, Type::Search, Type::Number]
    );
    assert!(!document.is_dirty());
    document.highlight(None);
    assert_eq!(
        document.row(0).unwrap().highlighting(),
        &vec![Type::Plain, Type::Plain, Type::Plain]
    );
}

#[test]
fn find_forward_goes_on_through_later_lines() {
    let document = Document::from_text("abc\ndef\nabc", "f");
    let forward = SearchDirection::Forward;
    assert_eq!(document.find("abc", &Position { x: 0, y: 0 }, forward), Some(Position { x: 0, y: 0 }));
    assert_eq!(document.find("abc", &Position { x: 1, y: 0 }, forward), Some(Position { x: 0, y: 2 }));
    assert_eq!(document.find("ef", &Position { x: 2, y: 0 }, forward), Some(Position { x: 1, y: 1 }));
    assert_eq!(document.find("ef", &Position { x: 2, y: 1 }, forward), None);
    assert_eq!(document.find("zz", &Position { x: 0, y: 0 }, forward), None);
}

#[test]
fn find_backward_goes_on_through_earlier_lines() {
    let document = Document::from_text("abc\ndef\nabc", "f");
    let backward = SearchDirection::Backward;
    assert_eq!(document.find("abc", &Position { x: 3, y: 2 }, backward), Some(Position { x: 0, y: 2 }));
    assert_eq!(document.find("abc", &Position { x: 2, y: 2 }, backward), Some(Position { x: 0, y: 0 }));
    assert_eq!(document.find("de", &Position { x: 0, y: 2 }, backward), Some(Position { x: 0, y: 1 }));
    assert_eq!(document.find("de", &Position { x: 1, y: 1 }, backward), None);
    assert_eq!(document.find("c", &Position { x: 9, y: 1 }, backward), Some(Position { x: 2, y: 0 }));
}

#[test]
fn find_behind_the_last_line_finds_nothing() {
    let document = Document::from_text("abc", "f");
    assert_eq!(document.find("abc", &Position { x: 0, y: 1 }, SearchDirection::Forward), None);
    assert_eq!(document.find("abc", &Position { x: 0, y: 1 }, SearchDirection::Backward), None);
    assert_eq!(document.find("", &Position { x: 0, y: 0 }, SearchDirection::Forward), None);
    assert_eq!(Document::default().find("a", &Position::default(), SearchDirection::Forward), None);
}
