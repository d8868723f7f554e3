use text_buffer::highlighting::Type;
use text_buffer::{Row, SearchDirection};

const NUMBER: &str = "\x1b[38;2;220;163;163m";
const SEARCH: &str = "\x1b[38;2;38;139;210m";
const PLAIN: &str = "\x1b[38;2;255;255;255m";
const RESET: &str = "\x1b[39m";

#[test]
fn ascii_length_is_character_count() {
    for text in ["", "a", "hello", "tab\there", "a\nb", "cr\ronly", "0123456789", "\x7f~ "] {
        let row = Row::from(text);
        assert_eq!(row.len(), text.chars().count(), "{:?}", text);
    }
}

#[test]
fn carriage_return_and_line_feed_are_one_cluster() {
    assert_eq!(Row::from("a\r\nb").len(), 3);
    assert_eq!(Row::from("\r\n").len(), 1);
}

#[test]
fn length_counts_clusters_not_scalars() {
    assert_eq!(Row::from("e\u{301}").len(), 1);
    assert_eq!(Row::from("a\u{310}e\u{301}o\u{308}\u{332}").len(), 3);
    assert_eq!(Row::from("\u{1F1F7}\u{1F1FA}\u{1F1F8}\u{1F1F9}").len(), 2);
    assert_eq!(Row::from("h\u{e9}llo").len(), 5);
}

#[test]
fn new_row_has_text_and_no_highlighting() {
    let row = Row::from("abc");
    assert_eq!(row.as_str(), "abc");
    assert_eq!(row.as_bytes(), b"abc");
    assert!(row.highlighting().is_empty());
    assert!(!row.is_empty());
}

#[test]
fn default_row_is_empty() {
    let row = Row::default();
    assert!(row.is_empty());
    assert_eq!(row.len(), 0);
    assert_eq!(row.as_str(), "");
}

#[test]
fn as_bytes_is_utf8() {
    let row = Row::from("h\u{e9}");
    assert_eq!(row.as_bytes(), &[0x68, 0xc3, 0xa9]);
}

#[test]
fn insert_in_the_middle() {
    let mut row = Row::from("abc");
    row.insert(1, 'x');
    assert_eq!(row.as_str(), "axbc");
    assert_eq!(row.len(), 4);
}

#[test]
fn insert_at_the_start_and_end() {
    let mut row = Row::from("abc");
    row.insert(0, 'x');
    assert_eq!(row.as_str(), "xabc");
    row.insert(4, 'y');
    assert_eq!(row.as_str(), "xabcy");
    assert_eq!(row.len(), 5);
}

#[test]
fn insert_beyond_the_end_appends() {
    let mut row = Row::from("abc");
    row.insert(100, 'x');
    assert_eq!(row.as_str(), "abcx");
    assert_eq!(row.len(), 4);
}

#[test]
fn insert_counts_clusters() {
    let mut row = Row::from("e\u{301}b");
    row.insert(1, 'x');
    assert_eq!(row.as_str(), "e\u{301}xb");
    assert_eq!(row.len(), 3);
}

#[test]
fn insert_keeps_highlighting() {
    let mut row = Row::from("a1");
    row.highlight(None);
    row.insert(0, 'x');
    assert_eq!(row.highlighting(), &vec![Type::Plain, Type::Number]);
}

#[test]
fn delete_removes_one_cluster() {
    let mut row = Row::from("abc");
    row.delete(1);
    assert_eq!(row.as_str(), "ac");
    assert_eq!(row.len(), 2);
    let mut row = Row::from("ae\u{301}b");
    row.delete(1);
    assert_eq!(row.as_str(), "ab");
    let mut row = Row::from("abc");
    row.delete(2);
    assert_eq!(row.as_str(), "ab");
}

#[test]
fn delete_beyond_the_end_does_nothing() {
    let mut row = Row::from("abc");
    row.delete(3);
    assert_eq!(row.as_str(), "abc");
    row.delete(usize::MAX);
    assert_eq!(row.as_str(), "abc");
    assert_eq!(row.len(), 3);
}

#[test]
fn insert_then_delete_restores_the_text() {
    for text in ["", "a", "abc", "e\u{301}x", "tab\t!"] {
        let count = Row::from(text).len();
        for at in 0..=count {
            let mut row = Row::from(text);
            row.insert(at, 'z');
            assert_eq!(row.len(), count + 1);
            row.delete(at);
            assert_eq!(row.as_str(), text, "{:?} at {}", text, at);
        }
    }
}

#[test]
fn combining_mark_is_not_deleted_alone() {
    let mut row = Row::from("a");
    row.insert(1, '\u{301}');
    assert_eq!(row.as_str(), "a\u{301}");
    assert_eq!(row.len(), 1);
    row.delete(1);
    assert_eq!(row.as_str(), "a\u{301}");
}

#[test]
fn append_joins_the_texts() {
    let mut row = Row::from("abc");
    row.append(&Row::from("de\u{301}"));
    assert_eq!(row.as_str(), "abcde\u{301}");
    assert_eq!(row.len(), 5);
    row.append(&Row::default());
    assert_eq!(row.as_str(), "abcde\u{301}");
}

#[test]
fn split_cuts_at_a_cluster() {
    let mut row = Row::from("abe\u{301}c");
    let rest = row.split(2);
    assert_eq!(row.as_str(), "ab");
    assert_eq!(row.len(), 2);
    assert_eq!(rest.as_str(), "e\u{301}c");
    assert_eq!(rest.len(), 2);
    assert!(rest.highlighting().is_empty());
}

#[test]
fn split_at_the_edges() {
    let mut row = Row::from("abc");
    let rest = row.split(0);
    assert_eq!(row.as_str(), "");
    assert_eq!(rest.as_str(), "abc");
    let mut row = Row::from("abc");
    let rest = row.split(3);
    assert_eq!(row.as_str(), "abc");
    assert_eq!(rest.as_str(), "");
    let mut row = Row::from("abc");
    let rest = row.split(17);
    assert_eq!(row.as_str(), "abc");
    assert_eq!(rest.as_str(), "");
}

#[test]
fn split_then_append_restores_the_text() {
    for text in ["", "a", "hello world", "e\u{301}\u{1F1F7}\u{1F1FA}x", "a\r\nb"] {
        for at in 0..8 {
            let mut row = Row::from(text);
            let rest = row.split(at);
            row.append(&rest);
            assert_eq!(row.as_str(), text);
            assert_eq!(row.len(), Row::from(text).len());
        }
    }
}

#[test]
fn find_single_occurrence_both_ways() {
    let row = Row::from("hello world");
    assert_eq!(row.find("world", 0, SearchDirection::Forward), Some(6));
    assert_eq!(row.find("world", row.len(), SearchDirection::Backward), Some(6));
    let row = Row::from("e\u{301}\u{e9}llo w\u{f6}rld");
    assert_eq!(row.find("w\u{f6}", 0, SearchDirection::Forward), Some(6));
    assert_eq!(row.find("w\u{f6}", row.len(), SearchDirection::Backward), Some(6));
}

#[test]
fn find_forward_takes_the_leftmost_from_the_start_column() {
    let row = Row::from("abcabcabc");
    assert_eq!(row.find("abc", 0, SearchDirection::Forward), Some(0));
    assert_eq!(row.find("abc", 1, SearchDirection::Forward), Some(3));
    assert_eq!(row.find("abc", 3, SearchDirection::Forward), Some(3));
    assert_eq!(row.find("abc", 7, SearchDirection::Forward), None);
    assert_eq!(row.find("abc", 9, SearchDirection::Forward), None);
}

#[test]
fn find_backward_takes_the_rightmost_before_the_start_column() {
    let row = Row::from("abcabcabc");
    assert_eq!(row.find("abc", 9, SearchDirection::Backward), Some(6));
    assert_eq!(row.find("abc", 8, SearchDirection::Backward), Some(3));
    assert_eq!(row.find("abc", 6, SearchDirection::Backward), Some(3));
    assert_eq!(row.find("abc", 3, SearchDirection::Backward), Some(0));
    assert_eq!(row.find("abc", 2, SearchDirection::Backward), None);
    assert_eq!(row.find("abc", 0, SearchDirection::Backward), None);
}

#[test]
fn find_rejects_empty_query_and_far_column() {
    let row = Row::from("abc");
    assert_eq!(row.find("", 0, SearchDirection::Forward), None);
    assert_eq!(row.find("", 0, SearchDirection::Backward), None);
    assert_eq!(row.find("a", 4, SearchDirection::Forward), None);
    assert_eq!(row.find("a", 4, SearchDirection::Backward), None);
    assert_eq!(row.find("c", 3, SearchDirection::Backward), Some(2));
    assert_eq!(Row::default().find("", 0, SearchDirection::Forward), None);
}

#[test]
fn find_ignores_a_match_inside_a_cluster() {
    let row = Row::from("e\u{301}");
    assert_eq!(row.find("\u{301}", 0, SearchDirection::Forward), None);
    assert_eq!(row.find("\u{301}", 1, SearchDirection::Backward), None);
}

#[test]
fn find_gives_cluster_indices() {
    let row = Row::from("e\u{301}e\u{301}xy");
    assert_eq!(row.find("xy", 0, SearchDirection::Forward), Some(2));
    assert_eq!(row.find("y", 1, SearchDirection::Forward), Some(3));
    assert_eq!(row.find("x", 4, SearchDirection::Backward), Some(2));
}

#[test]
fn highlight_search_word_and_digits() {
    let mut row = Row::from("xab1ab");
    row.highlight(Some("ab"));
    assert_eq!(
        row.highlighting(),
        &vec![Type::Plain, Type::Search, Type::Search, Type::Number, Type::Search, Type::Search]
    );
}

#[test]
fn highlight_without_word_marks_digits() {
    let mut row = Row::from("a1b22 ");
    row.highlight(None);
    assert_eq!(
        row.highlighting(),
        &vec![Type::Plain, Type::Number, Type::Plain, Type::Number, Type::Number, Type::Plain]
    );
    row.highlight(Some(""));
    assert_eq!(
        row.highlighting(),
        &vec![Type::Plain, Type::Number, Type::Plain, Type::Number, Type::Number, Type::Plain]
    );
}

#[test]
fn highlight_matches_do_not_overlap() {
    let mut row = Row::from("aaaaa");
    row.highlight(Some("aa"));
    assert_eq!(
        row.highlighting(),
        &vec![Type::Search, Type::Search, Type::Search, Type::Search, Type::Plain]
    );
}

#[test]
fn highlight_has_one_class_per_cluster() {
    for text in ["", "abc", "e\u{301}1\u{1F1F7}\u{1F1FA}", "1\u{301}2", "a\r\nb"] {
        for word in [None, Some("1"), Some("e\u{301}"), Some("zz")] {
            let mut row = Row::from(text);
            row.highlight(word);
            assert_eq!(row.highlighting().len(), row.len());
        }
    }
}

#[test]
fn highlight_goes_by_the_first_scalar_of_a_cluster() {
    let mut row = Row::from("1\u{301}e\u{301}");
    row.highlight(None);
    assert_eq!(row.highlighting(), &vec![Type::Number, Type::Plain]);
}

#[test]
fn highlight_replaces_old_classes() {
    let mut row = Row::from("ab1");
    row.highlight(Some("ab"));
    assert_eq!(row.highlighting(), &vec![Type::Search, Type::Search, Type::Number]);
    row.highlight(None);
    assert_eq!(row.highlighting(), &vec![Type::Plain, Type::Plain, Type::Number]);
}

#[test]
fn render_marks_each_change_of_class() {
    let mut row = Row::from("a1\tb");
    row.highlight(None);
    let expected = format!("a{}1{}    b{}", NUMBER, PLAIN, RESET);
    assert_eq!(row.render(0, 4), expected);
}

#[test]
fn render_search_matches() {
    let mut row = Row::from("xab1ab");
    row.highlight(Some("ab"));
    let expected = format!("x{}ab{}1{}ab{}", SEARCH, NUMBER, SEARCH, RESET);
    assert_eq!(row.render(0, 6), expected);
    let expected = format!("{}b{}1{}a{}", SEARCH, NUMBER, SEARCH, RESET);
    assert_eq!(row.render(2, 5), expected);
}

#[test]
fn render_empty_range_is_the_reset() {
    let mut row = Row::from("abc");
    row.highlight(None);
    assert_eq!(row.render(0, 0), RESET);
    assert_eq!(row.render(2, 1), RESET);
    assert_eq!(row.render(7, 9), RESET);
    assert_eq!(Row::default().render(0, 10), RESET);
}

#[test]
fn render_cuts_the_range_down_to_the_row() {
    let mut row = Row::from("abc");
    row.highlight(None);
    assert_eq!(row.render(1, 100), format!("bc{}", RESET));
    assert_eq!(row.render(0, usize::MAX), format!("abc{}", RESET));
}

#[test]
fn render_without_highlighting_is_plain() {
    let row = Row::from("a1");
    assert_eq!(row.render(0, 2), format!("a1{}", RESET));
}

#[test]
fn render_draws_every_scalar_of_a_cluster() {
    let mut row = Row::from("e\u{301}x");
    row.highlight(None);
    assert_eq!(row.render(0, 2), format!("e\u{301}x{}", RESET));
    assert_eq!(row.render(0, 1), format!("e\u{301}{}", RESET));
    let mut row = Row::from("1\u{301}\u{1F1F7}\u{1F1FA}\r\n");
    row.highlight(None);
    assert_eq!(
        row.render(0, 3),
        format!("{}1\u{301}{}\u{1F1F7}\u{1F1FA}\r\n{}", NUMBER, PLAIN, RESET)
    );
}

#[test]
fn every_ascii_pair_but_return_and_feed_is_two_clusters() {
    for a in 0u8..128 {
        for b in 0u8..128 {
            let text: String = [a as char, b as char].iter().collect();
            let row = Row::from(text.as_str());
            if a == b'\r' && b == b'\n' {
                assert_eq!(row.len(), 1);
            } else {
                assert_eq!(row.len(), 2, "{:?}", text);
            }
        }
    }
}

#[test]
fn long_ascii_text_has_one_cluster_per_character() {
    let text: String = (0u8..128).filter(|b| *b != b'\r').map(|b| b as char).collect();
    assert_eq!(Row::from(text.as_str()).len(), 127);
    let text = "\n\r\r \r\t\n\n\r";
    assert_eq!(Row::from(text).len(), 9);
}

#[test]
fn row_from_a_string_slice() {
    let row: Row = "abc".into();
    assert_eq!(row.as_str(), "abc");
    assert_eq!(row.len(), 3);
}
