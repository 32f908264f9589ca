use syl::colors::{color, Color};
use syl::decimal::{format_decimal, parse_decimal};
use syl::util::singular_plural;

#[test]
fn test_plural() {
    assert_eq!(singular_plural("balls", 0), "balls");
    assert_eq!(singular_plural("balls", 1), "ball");
    assert_eq!(singular_plural("balls", 2), "balls");
}

#[test]
fn plural_special_case_these() {
    assert_eq!(singular_plural("these", 1), "this");
    assert_eq!(singular_plural("these", 2), "these");
}

#[test]
fn color_wraps_in_ansi_escapes() {
    assert_eq!(color("hello", Color::Yellow), "\x1b[33mhello\x1b[m");
    assert_eq!(color("x", Color::BoldGreen), "\x1b[1;32mx\x1b[m");
}

#[test]
fn decimal_round_trips() {
    assert_eq!(format_decimal(0), "0");
    assert_eq!(format_decimal(90127), "90127");
    assert_eq!(parse_decimal("90127"), Some(90127));
    assert_eq!(parse_decimal("0"), Some(0));
    assert_eq!(parse_decimal(""), None);
    assert_eq!(parse_decimal("12a"), None);
    assert_eq!(parse_decimal("-3"), None);
}

#[test]
fn bookmark_tag_list_formats_with_colors() {
    let b = syl::db::Bookmark {
        id: 1,
        url: "example.org".to_string(),
        title: None,
        description: None,
        tags: vec!["a".to_string(), "b".to_string()],
    };
    assert_eq!(b.format_tags(), "[\x1b[33ma\x1b[m,\x1b[33mb\x1b[m]");
    let none = syl::db::Bookmark { tags: vec![], ..b };
    assert_eq!(none.format_tags(), "");
}
