use mastercurve::strset::{difference, equal, to_set};
use mastercurve::text::{
    cat, has_part, join, position, show_int, show_signed, text_before, to_upper, trim,
};

fn list(words: &[&str]) -> Vec<String> {
    words.iter().map(|w| w.to_string()).collect()
}

#[test]
fn strings_are_trimmed_and_raised() {
    assert_eq!(trim("  C \t\n"), "C");
    assert_eq!(trim("\u{3000}K\u{a0}"), "K");
    assert_eq!(trim("   "), "");
    assert_eq!(to_upper("kelvin"), "KELVIN");
    assert_eq!(cat("a", "b"), "ab");
}

#[test]
fn numbers_are_written_in_decimal() {
    assert_eq!(show_int(0), "0");
    assert_eq!(show_int(1024), "1024");
    assert_eq!(show_int(u64::MAX), "18446744073709551615");
    assert_eq!(show_signed(-7), "-7");
    assert_eq!(show_signed(i64::MIN), "-9223372036854775808");
}

#[test]
fn parts_and_places_are_found() {
    assert!(has_part("温度下限 480°C", "下限"));
    assert!(!has_part("温度", "下限"));
    assert!(has_part("abc", ""));
    assert_eq!(position(&list(&["HA", "HB", "HA"]), "HA"), Some(0));
    assert_eq!(position(&list(&["HA", "HB"]), "HC"), None);
    assert_eq!(join(&list(&["a", "b", "c"]), "；"), "a；b；c");
    assert_eq!(join(&list(&[]), ","), "");
}

#[test]
fn order_is_that_of_strings() {
    let words = ["", "A", "AB", "B", "a", "é", "中", "𝄞", "\u{ffff}"];
    for x in words {
        for y in words {
            assert_eq!(text_before(x, y), x < y, "{x} {y}");
        }
    }
}

#[test]
fn sets_are_sorted_without_repetition() {
    let s = to_set(&list(&["B", "A", "C", "A", "B"]));
    assert_eq!(s, list(&["A", "B", "C"]));
    let t = to_set(&list(&["D", "B"]));
    assert_eq!(difference(&s, &t), list(&["A", "C"]));
    assert_eq!(difference(&t, &s), list(&["D"]));
    assert!(equal(&s, &to_set(&list(&["C", "B", "A"]))));
    assert!(!equal(&s, &t));
}
