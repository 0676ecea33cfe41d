use dm::error::TableError;
use dm::order::{sort_by_text, text_eq, text_less};
use dm::row::Row;

fn texts(parts: &[&str]) -> Vec<String> {
    parts.iter().map(|s| s.to_string()).collect()
}

#[test]
fn text_eq_compares_whole_texts() {
    assert!(text_eq("", ""));
    assert!(text_eq("abc", "abc"));
    assert!(!text_eq("abc", "abd"));
    assert!(!text_eq("abc", "ab"));
    assert!(!text_eq("", " "));
    assert!(text_eq("naïve ☕", "naïve ☕"));
    assert!(!text_eq("naïve", "naive"));
}

#[test]
fn text_less_orders_as_strings_are_ordered() {
    let samples = [
        "", "a", "A", "ab", "abc", "b", "B", "10", "9", "é", "e", "z", "~", "|", "a|b", "日本",
        "\u{10FFFF}", " ",
    ];
    for a in samples {
        for b in samples {
            assert_eq!(text_less(a, b), a < b, "{:?} {:?}", a, b);
        }
    }
}

#[test]
fn sort_by_text_gives_positions_in_ascending_order() {
    assert_eq!(sort_by_text(&texts(&[])), Vec::<usize>::new());
    assert_eq!(sort_by_text(&texts(&["only"])), vec![0]);
    assert_eq!(sort_by_text(&texts(&["pear", "fig", "apple"])), vec![2, 1, 0]);
    assert_eq!(sort_by_text(&texts(&["b", "a", "c", ""])), vec![3, 1, 0, 2]);
    assert_eq!(sort_by_text(&texts(&["10", "9", "100"])), vec![0, 2, 1]);
}

#[test]
fn sort_by_text_keeps_equal_texts_in_their_order() {
    assert_eq!(sort_by_text(&texts(&["b", "a", "b", "a", "b"])), vec![1, 3, 0, 2, 4]);
    assert_eq!(sort_by_text(&texts(&["x", "x", "x"])), vec![0, 1, 2]);
}

#[test]
fn sort_by_text_agrees_with_a_stable_sort() {
    let words =
        texts(&["kiwi", "Fig", "fig", "apple", "kiwi", "", "banana", "apple", "Zed", "é", "e"]);
    let mut expected: Vec<usize> = (0..words.len()).collect();
    expected.sort_by(|a, b| words[*a].cmp(&words[*b]));
    assert_eq!(sort_by_text(&words), expected);
}

#[test]
fn a_row_binds_names_to_texts() {
    let mut row = Row::new();
    assert_eq!(row.get("a"), None);
    assert!(!row.contains_key("a"));
    row.insert("a", "1".to_string());
    row.insert("b", "2".to_string());
    assert_eq!(row.get("a").unwrap(), "1");
    assert_eq!(row.get("b").unwrap(), "2");
    assert_eq!(row.get("c"), None);
    assert!(row.contains_key("b"));
}

#[test]
fn a_later_binding_replaces_an_earlier_one() {
    let mut row = Row::new();
    row.insert("a", "1".to_string());
    row.insert("b", "2".to_string());
    row.insert("a", "3".to_string());
    assert_eq!(row.get("a").unwrap(), "3");
    assert_eq!(row.get("b").unwrap(), "2");
}

#[test]
fn every_error_has_a_message() {
    let all = [
        TableError::ParseError,
        TableError::ColumnNotFound,
        TableError::DuplicateColumn,
        TableError::MissingColumn,
        TableError::NonNumericValue,
        TableError::IndexError,
    ];
    for (i, a) in all.iter().enumerate() {
        assert!(!a.message().is_empty());
        for (j, b) in all.iter().enumerate() {
            assert_eq!(a == b, i == j);
            assert_eq!(a.message() == b.message(), i == j);
        }
    }
    assert_eq!(TableError::ColumnNotFound.message(), "column not found");
}
