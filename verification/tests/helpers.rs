use words_with_fam::helpers::{hex_digit, id};

#[test]
fn ids_are_twelve_hex_digits() {
    let a = id();
    assert_eq!(a.chars().count(), 12);
    assert!(a.chars().all(|c| c.is_ascii_digit() || ('a'..='f').contains(&c)));
}

#[test]
fn hex_digits() {
    assert_eq!(hex_digit(0), '0');
    assert_eq!(hex_digit(9), '9');
    assert_eq!(hex_digit(10), 'a');
    assert_eq!(hex_digit(15), 'f');
}
