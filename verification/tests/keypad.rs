use phone_encoder::keypad::{char_to_digit, number_digits, word_to_number};

#[test]
fn every_letter_has_its_digit() {
    let groups: [(&str, u8); 10] = [
        ("e", 0),
        ("jnq", 1),
        ("rwx", 2),
        ("dsy", 3),
        ("ft", 4),
        ("am", 5),
        ("civ", 6),
        ("bku", 7),
        ("lop", 8),
        ("ghz", 9),
    ];
    let mut seen = 0;
    for (letters, digit) in groups {
        for ch in letters.chars() {
            assert_eq!(char_to_digit(ch), digit);
            assert_eq!(char_to_digit(ch.to_ascii_uppercase()), digit);
            seen += 1;
        }
    }
    assert_eq!(seen, 26);
}

#[test]
fn digit_key_skips_what_is_no_letter() {
    assert_eq!(word_to_number("tree"), b"4200".to_vec());
    assert_eq!(word_to_number("Ma\"dchen"), b"5536901".to_vec());
    assert_eq!(word_to_number("o'clock"), b"868867".to_vec());
    assert_eq!(word_to_number("--"), Vec::<u8>::new());
    assert_eq!(word_to_number(""), Vec::<u8>::new());
    assert_eq!(word_to_number("\u{e4}b"), b"7".to_vec());
}

#[test]
fn number_digits_keeps_ascii_digits_only() {
    assert_eq!(number_digits("5624-82"), b"562482".to_vec());
    assert_eq!(number_digits("04824/x 9"), b"048249".to_vec());
    assert_eq!(number_digits("abc"), Vec::<u8>::new());
    assert_eq!(number_digits("\u{661}2"), b"2".to_vec());
}
