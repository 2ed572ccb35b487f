use bruhbot::text::{join_names, normalize_name, str_lt, str_starts_with, usize_to_string};

#[test]
fn normalize_trims_and_lowercases() {
    assert_eq!(normalize_name("  BRUH "), "bruh");
    assert_eq!(normalize_name("Air Horn"), "air horn");
    assert_eq!(normalize_name("\t\nbruh\r\n"), "bruh");
    assert_eq!(normalize_name("already-lower_9"), "already-lower_9");
}

#[test]
fn normalize_of_whitespace_is_empty() {
    assert_eq!(normalize_name("   \t\r\n"), "");
    assert_eq!(normalize_name(""), "");
}

#[test]
fn normalize_keeps_non_ascii_letters() {
    // Only ASCII letters are folded; other characters pass through.
    assert_eq!(normalize_name(" Ünt2é "), "Ünt2é");
}

#[test]
fn lexicographic_order() {
    assert!(str_lt("air", "airhorn"));
    assert!(str_lt("air", "bruh"));
    assert!(!str_lt("bruh", "air"));
    assert!(!str_lt("air", "air"));
    assert!(str_lt("", "a"));
}

#[test]
fn prefix_test() {
    assert!(str_starts_with("airhorn", "air"));
    assert!(str_starts_with("airhorn", ""));
    assert!(str_starts_with("air", "air"));
    assert!(!str_starts_with("air", "airhorn"));
    assert!(!str_starts_with("bruh", "air"));
}

#[test]
fn decimal_rendering() {
    assert_eq!(usize_to_string(0), "0");
    assert_eq!(usize_to_string(7), "7");
    assert_eq!(usize_to_string(100), "100");
    assert_eq!(usize_to_string(12345), "12345");
}

#[test]
fn joining_names() {
    let none: Vec<String> = vec![];
    assert_eq!(join_names(&none, ", "), "");
    assert_eq!(join_names(&vec!["a".to_string()], ", "), "a");
    assert_eq!(
        join_names(&vec!["a".to_string(), "b".to_string(), "c".to_string()], ", "),
        "a, b, c"
    );
}
