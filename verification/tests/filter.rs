use phone_encoder::filter::should_print;
use phone_encoder::segment::WordOrDigit;
use phone_encoder::segment::WordOrDigit::{Digit, Word};

#[test]
fn empty_translation_is_rejected() {
    let none: [WordOrDigit; 0] = [];
    assert!(!should_print(&none));
}

#[test]
fn single_segment_is_always_accepted() {
    assert!(should_print(&[Word("Torf")]));
    assert!(should_print(&[Digit(7)]));
    assert!(should_print(&[Word("")]));
}

#[test]
fn kinds_must_alternate() {
    assert!(should_print(&[Word("Tor"), Digit(4)]));
    assert!(should_print(&[Digit(0), Word("Torf")]));
    assert!(should_print(&[Digit(0), Word("Tor"), Digit(4)]));
    assert!(!should_print(&[Word("mir"), Word("Tor")]));
    assert!(!should_print(&[Digit(1), Digit(2)]));
    assert!(!should_print(&[Word("je"), Word("bo\"s"), Digit(5)]));
    assert!(!should_print(&[Word("so"), Digit(1), Digit(4), Word("an")]));
    assert!(!should_print(&[Digit(1), Word("so"), Word("an")]));
}

#[test]
fn words_must_share_the_first_words_length() {
    assert!(should_print(&[Word("so"), Digit(1), Word("an")]));
    assert!(!should_print(&[Word("so"), Digit(1), Word("Tor")]));
    assert!(should_print(&[Digit(3), Word("so"), Digit(1), Word("an")]));
    assert!(!should_print(&[Digit(3), Word("so"), Digit(1), Word("Tor")]));
    assert!(!should_print(&[Digit(3), Word("Tor"), Digit(1), Word("an"), Digit(2)]));
    assert!(should_print(&[Word("a"), Digit(1), Word("b"), Digit(2), Word("c")]));
    assert!(!should_print(&[Word("a"), Digit(1), Word("b"), Digit(2), Word("cd")]));
}

#[test]
fn a_leading_digit_does_not_fix_the_length() {
    assert!(should_print(&[Digit(9), Word("Wasser")]));
    assert!(should_print(&[Digit(9), Word("Wasser"), Digit(1), Word("jemand")]));
}

#[test]
fn length_is_counted_in_characters() {
    assert_eq!(Word("\u{e4}b").len(), 2);
    assert_eq!(Word("Torf").len(), 4);
    assert_eq!(Word("").len(), 0);
    assert_eq!(Digit(0).len(), 1);
    assert_eq!(Digit(200).len(), 1);
    assert!(should_print(&[Word("\u{e4}b"), Digit(1), Word("cd")]));
    assert!(!should_print(&[Word("\u{e4}b"), Digit(1), Word("cde")]));
}

#[test]
fn while_the_held_length_is_zero_the_next_segment_sets_it() {
    // After an empty first word the digit that follows sets the length to 1.
    assert!(should_print(&[Word(""), Digit(1), Word("a")]));
    assert!(!should_print(&[Word(""), Digit(1), Word("")]));
    assert!(!should_print(&[Word(""), Digit(1), Word("ab")]));
    // After a digit and an empty word the next digit sets it to 1.
    assert!(should_print(&[Digit(1), Word(""), Digit(2), Word("a")]));
    assert!(!should_print(&[Digit(1), Word(""), Digit(2), Word("")]));
}
