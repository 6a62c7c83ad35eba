use csv_tools::text::{join, rank_text, Rank};

#[test]
fn join_puts_the_separator_between_parts() {
    let parts = vec!["a".to_owned(), "b".to_owned(), "c".to_owned()];
    assert_eq!(join(&parts, ", "), "a, b, c");
    assert_eq!(join(&Vec::new(), ", "), "");
    assert_eq!(join(&vec!["only".to_owned()], ", "), "only");
}

#[test]
fn rank_text_orders_by_bytes() {
    assert_eq!(rank_text("home", "work"), Rank::Before);
    assert_eq!(rank_text("work", "home"), Rank::After);
    assert_eq!(rank_text("home", "home"), Rank::Same);
    assert_eq!(rank_text("a", "ab"), Rank::Before);
    assert_eq!(rank_text("", ""), Rank::Same);
    assert_eq!(rank_text("Z", "a"), Rank::Before);
}

#[test]
fn decimal_writes_numbers_without_leading_zeros() {
    assert_eq!(csv_tools::text::decimal(0), "0");
    assert_eq!(csv_tools::text::decimal(7), "7");
    assert_eq!(csv_tools::text::decimal(10), "10");
    assert_eq!(csv_tools::text::decimal(250000), "250000");
    assert_eq!(csv_tools::text::decimal(1234567890), "1234567890");
    assert_eq!(csv_tools::text::decimal(u64::MAX), "18446744073709551615");
}

#[test]
fn quote_list_quotes_each_text() {
    assert_eq!(csv_tools::text::quote_list(&vec![]), "[]");
    assert_eq!(
        csv_tools::text::quote_list(&vec!["a".to_owned(), "b \"c\"".to_owned()]),
        "[\"a\", \"b \\\"c\\\"\"]",
    );
}

#[test]
fn position_of_finds_the_first_occurrence() {
    let v = vec!["a".to_owned(), "b".to_owned(), "a".to_owned()];
    assert_eq!(csv_tools::text::position_of(&v, "a"), Some(0));
    assert_eq!(csv_tools::text::position_of(&v, "b"), Some(1));
    assert_eq!(csv_tools::text::position_of(&v, "c"), None);
    assert!(csv_tools::text::contains_text(&v, "b"));
    assert!(!csv_tools::text::contains_text(&v, ""));
    assert!(csv_tools::text::same_text("é", "é"));
    assert!(!csv_tools::text::same_text("e", "é"));
}
