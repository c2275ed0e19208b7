use bool_algebra::diagnostic::{get_char_at_index, invalid_char_error, push_decimal, push_spaces};
use bool_algebra::text::{chars_of, string_of};

#[test]
fn test_chars_of() {
    assert_eq!(chars_of(""), Vec::<char>::new());
    assert_eq!(chars_of("a&b"), vec!['a', '&', 'b']);
    assert_eq!(chars_of("é│x"), vec!['é', '│', 'x']);
}

#[test]
fn test_string_of() {
    let chars = vec!['a', 'é', 'c', 'd'];
    assert_eq!(string_of(&chars, 0, 4), "aécd");
    assert_eq!(string_of(&chars, 1, 3), "éc");
    assert_eq!(string_of(&chars, 2, 2), "");
    assert_eq!(string_of(&chars, 4, 4), "");
}

#[test]
fn test_push_decimal() {
    for n in [0usize, 7, 9, 10, 11, 99, 100, 101, 262144, 4294967295] {
        let mut out = String::from("n=");
        push_decimal(&mut out, n);
        assert_eq!(out, format!("n={}", n));
    }
    let mut out = String::new();
    push_decimal(&mut out, usize::MAX);
    assert_eq!(out, usize::MAX.to_string());
}

#[test]
fn test_push_spaces() {
    let mut out = String::from("x");
    push_spaces(&mut out, 0);
    assert_eq!(out, "x");
    push_spaces(&mut out, 3);
    assert_eq!(out, "x   ");
}

#[test]
fn test_get_char_at_index() {
    let text = "aé│".to_string();
    assert_eq!(get_char_at_index(&text, 0), Some('a'));
    assert_eq!(get_char_at_index(&text, 1), Some('é'));
    assert_eq!(get_char_at_index(&text, 2), Some('│'));
    assert_eq!(get_char_at_index(&text, 3), None);
    assert_eq!(get_char_at_index(&String::new(), 0), None);
}

#[test]
fn test_invalid_char_error_text() {
    assert_eq!(
        invalid_char_error(&"ab cd".to_string(), 'c', 3),
        "Invalid character 'c' at pos 3\n\nab cd\n   ^^^\n"
    );
    assert_eq!(invalid_char_error(&String::new(), ' ', 0), "Invalid character ' ' at pos 0\n\n\n^^^\n");
    assert_eq!(
        invalid_char_error(&"x".to_string(), '?', 12),
        "Invalid character '?' at pos 12\n\nx\n            ^^^\n"
    );
}
