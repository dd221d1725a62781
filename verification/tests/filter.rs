//! Column predicates.

use coseva::filter::{ByteSet, Column, MatchKind, Predicate};
use coseva::search::find_literal;

fn equals(literal: &[u8]) -> Predicate {
    Predicate::equals(Column::from(0), literal)
}

#[test]
fn literals_touching_structural_bytes_are_not_skippable() {
    let structural = *b",\"";
    assert!(equals(b"US").is_skippable(&structural));
    assert!(!equals(b"").is_skippable(&structural));
    assert!(!equals(b"a\"b").is_skippable(&structural));
    assert!(!equals(b"a,b").is_skippable(&structural));
    assert!(!equals(b"a\nb").is_skippable(&structural));
}

#[test]
fn high_byte_structural_literals_are_not_skippable() {
    let structural = [b'|', 0x80, 0xFF];

    assert!(!equals(b"a|b").is_skippable(&structural));
    assert!(!equals(b"a\x80b").is_skippable(&structural));
    assert!(!equals(b"a\xFFb").is_skippable(&structural));
}

#[test]
fn a_carriage_return_is_not_searched_for() {
    assert!(!equals(b"a\rb").is_skippable(b""));
    assert!(equals(b"ab").is_skippable(b""));
}

#[test]
fn each_kind_compares_bytes() {
    let equal = Predicate::equals(Column::from(1), b"US");
    assert_eq!(equal.kind(), MatchKind::Equals);
    assert_eq!(equal.literal(), b"US");
    assert!(equal.matches_field(Some(b"US")));
    assert!(!equal.matches_field(Some(b"us")));
    assert!(!equal.matches_field(Some(b"USA")));
    assert!(!equal.matches_field(Some(b"U")));
    assert!(!equal.matches_field(None));

    let contains = Predicate::contains(Column::from(1), b"bc");
    assert_eq!(contains.kind(), MatchKind::Contains);
    assert!(contains.matches_field(Some(b"abcd")));
    assert!(contains.matches_field(Some(b"bc")));
    assert!(contains.matches_field(Some(b"bbc")));
    assert!(!contains.matches_field(Some(b"b c")));

    let starts = Predicate::starts_with(Column::from(1), b"ab");
    assert_eq!(starts.kind(), MatchKind::StartsWith);
    assert!(starts.matches_field(Some(b"abc")));
    assert!(!starts.matches_field(Some(b"cab")));
    assert!(!starts.matches_field(Some(b"a")));

    let ends = Predicate::ends_with(Column::from(1), b"ab");
    assert_eq!(ends.kind(), MatchKind::EndsWith);
    assert!(ends.matches_field(Some(b"cab")));
    assert!(!ends.matches_field(Some(b"abc")));
    assert!(!ends.matches_field(Some(b"b")));
}

#[test]
fn an_empty_literal_is_in_every_field_that_is_there() {
    assert!(Predicate::equals(Column::from(0), b"").matches_field(Some(b"")));
    assert!(!Predicate::equals(Column::from(0), b"").matches_field(Some(b"a")));
    assert!(Predicate::contains(Column::from(0), b"").matches_field(Some(b"")));
    assert!(Predicate::contains(Column::from(0), b"").matches_field(Some(b"a")));
}

#[test]
fn an_absent_field_is_taken_for_empty_by_two_tests() {
    assert!(Predicate::equals(Column::from(0), b"").matches_field(None));
    assert!(Predicate::contains(Column::from(0), b"").matches_field(None));
    assert!(!Predicate::starts_with(Column::from(0), b"").matches_field(None));
    assert!(!Predicate::ends_with(Column::from(0), b"").matches_field(None));
    assert!(!Predicate::equals(Column::from(0), b"a").matches_field(None));
    assert!(!Predicate::contains(Column::from(0), b"a").matches_field(None));
}

#[test]
fn a_column_is_a_name_or_a_number() {
    let by_name = Predicate::equals(Column::from("country"), b"US");
    let by_index = Predicate::equals(Column::from(1), b"US");

    assert_eq!(by_name.column(), &Column::Name("country".to_owned()));
    assert_eq!(by_index.column(), &Column::Index(1));
    assert_eq!(by_name.column(), &Column::borrowed("country"));
    assert_eq!(Column::from("country".to_owned()), Column::borrowed("country"));
    assert_eq!(by_name.column().name(), Some("country"));
    assert_eq!(by_index.column().name(), None);
}

#[test]
fn a_byte_set_has_what_was_put_into_it() {
    let mut set = ByteSet::empty();
    for byte in [0u8, 63, 64, 127, 128, 255] {
        assert!(!set.contains(byte));
        set.insert(byte);
        assert!(set.contains(byte));
    }
    assert!(!set.contains(1));
    assert!(!set.contains(65));
}

#[test]
fn a_literal_is_found_where_it_first_stands() {
    assert_eq!(find_literal(b"aab", b"aaab"), Some(1));
    assert_eq!(find_literal(b"", b"xyz"), Some(0));
    assert_eq!(find_literal(b"xyz", b"xyz"), Some(0));
    assert_eq!(find_literal(b"xyzz", b"xyz"), None);
    assert_eq!(find_literal(b"q", b"xyz"), None);
}
