use geolymp::format::{cases, decimal_string, rgb_ansi};

#[test]
fn decimal_string_exact_values() {
    assert_eq!(decimal_string(0), "0");
    assert_eq!(decimal_string(7), "7");
    assert_eq!(decimal_string(10), "10");
    assert_eq!(decimal_string(1009), "1009");
    assert_eq!(decimal_string(u64::MAX), "18446744073709551615");
}

#[test]
fn cases_of_nothing_is_empty() {
    assert_eq!(cases(&vec![]), "");
}

#[test]
fn cases_numbers_from_one() {
    assert_eq!(cases(&vec!["GEOLYMP".to_string()]), "Case #1: GEOLYMP");
    let three = vec!["a".to_string(), String::new(), "c c".to_string()];
    assert_eq!(cases(&three), "Case #1: a\nCase #2: \nCase #3: c c");
}

#[test]
fn cases_reaches_two_digits() {
    let answers: Vec<String> = (0..12).map(|i| format!("{i}")).collect();
    let text = cases(&answers);
    assert!(text.ends_with("Case #10: 9\nCase #11: 10\nCase #12: 11"));
    assert_eq!(text.lines().count(), 12);
}

#[test]
fn rgb_ansi_exact_values() {
    assert_eq!(rgb_ansi(255, 0, 0), "\x1b[38;2;255;0;0m");
    assert_eq!(rgb_ansi(75, 0, 130), "\x1b[38;2;75;0;130m");
    assert_eq!(rgb_ansi(1, 23, 45), "\x1b[38;2;1;23;45m");
}
