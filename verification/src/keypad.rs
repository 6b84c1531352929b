//! The keypad: which digit a letter stands for, and the digit key of a word.

use vstd::prelude::*;

verus! {

/// The ASCII code of the digit `0`; the digit `d` has the code `ZERO + d`.
pub const ZERO: u8 = 48;

/// An ASCII letter, of either case.
pub open spec fn is_letter(c: char) -> bool {
    ('a' <= c && c <= 'z') || ('A' <= c && c <= 'Z')
}

/// The lower-case form of an ASCII letter; any other character is itself.
pub open spec fn lower(c: char) -> char {
    if 'A' <= c && c <= 'Z' {
        ((c as u8) + 32) as char
    } else {
        c
    }
}

/// The digit that a letter stands for:
/// e = 0; j, n, q = 1; r, w, x = 2; d, s, y = 3; f, t = 4; a, m = 5;
/// c, i, v = 6; b, k, u = 7; l, o, p = 8; g, h, z = 9, in either case.
/// The value on anything but a letter is of no meaning.
pub open spec fn letter_digit(c: char) -> u8 {
    let l = lower(c);
    if l == 'e' {
        0
    } else if l == 'j' || l == 'n' || l == 'q' {
        1
    } else if l == 'r' || l == 'w' || l == 'x' {
        2
    } else if l == 'd' || l == 's' || l == 'y' {
        3
    } else if l == 'f' || l == 't' {
        4
    } else if l == 'a' || l == 'm' {
        5
    } else if l == 'c' || l == 'i' || l == 'v' {
        6
    } else if l == 'b' || l == 'k' || l == 'u' {
        7
    } else if l == 'l' || l == 'o' || l == 'p' {
        8
    } else {
        9
    }
}

/// Whether a character is an ASCII letter.
pub fn is_ascii_letter(ch: char) -> (yes: bool)
    ensures
        yes == is_letter(ch),
{
    ('a' <= ch && ch <= 'z') || ('A' <= ch && ch <= 'Z')
}

/// Maps a letter to its digit. The caller presents letters only.
pub fn char_to_digit(ch: char) -> (digit: u8)
    requires
        is_letter(ch),
    ensures
        digit == letter_digit(ch),
        digit <= 9,
{
    match ch {
        'e' | 'E' => 0,
        'j' | 'n' | 'q' | 'J' | 'N' | 'Q' => 1,
        'r' | 'w' | 'x' | 'R' | 'W' | 'X' => 2,
        'd' | 's' | 'y' | 'D' | 'S' | 'Y' => 3,
        'f' | 't' | 'F' | 'T' => 4,
        'a' | 'm' | 'A' | 'M' => 5,
        'c' | 'i' | 'v' | 'C' | 'I' | 'V' => 6,
        'b' | 'k' | 'u' | 'B' | 'K' | 'U' => 7,
        'l' | 'o' | 'p' | 'L' | 'O' | 'P' => 8,
        _ => 9,
    }
}

/// The byte that stands for a letter in a digit key: the ASCII digit of the
/// letter's keypad digit.
pub open spec fn key_byte(c: char) -> u8 {
    (letter_digit(c) + ZERO) as u8
}

/// The digit key of a word: its letters, in order, each as the ASCII digit
/// that the keypad gives it. Characters that are no letters leave no trace.
pub open spec fn digit_key(word: Seq<char>) -> Seq<u8> {
    word.filter(|c: char| is_letter(c)).map_values(|c: char| key_byte(c))
}

/// Appending a character to a word appends its key byte if it is a letter,
/// and nothing otherwise.
pub proof fn lemma_digit_key_push(word: Seq<char>, c: char)
    ensures
        digit_key(word.push(c)) == if is_letter(c) {
            digit_key(word).push(key_byte(c))
        } else {
            digit_key(word)
        },
{
    let letters = |c: char| is_letter(c);
    let byte = |c: char| key_byte(c);
    word.lemma_filter_push(c, letters);
    if is_letter(c) {
        word.filter(letters).lemma_push_map_commute(byte, c);
    }
}

/// Computes the digit key of a word.
pub fn word_to_number(word: &str) -> (key: Vec<u8>)
    ensures
        key@ == digit_key(word@),
{
    let mut key: Vec<u8> = Vec::new();
    proof {
        assert(word@.take(0) =~= Seq::<char>::empty());
    }
    for ch in it: word.chars()
        invariant
            it.seq() == word@,
            key@ == digit_key(word@.take(it.index() as int)),
    {
        proof {
            lemma_digit_key_push(word@.take(it.index() as int), ch);
            assert(word@.take(it.index() + 1) =~= word@.take(it.index() as int).push(ch));
        }
        if is_ascii_letter(ch) {
            key.push(char_to_digit(ch) + ZERO);
        }
    }
    proof {
        assert(word@.take(word@.len() as int) =~= word@);
    }
    key
}

/// An ASCII digit.
pub open spec fn is_digit_char(c: char) -> bool {
    '0' <= c && c <= '9'
}

/// Every byte is an ASCII digit.
pub open spec fn all_digits(digits: Seq<u8>) -> bool {
    forall|i: int| 0 <= i < digits.len() ==> ZERO <= #[trigger] digits[i] <= ZERO + 9
}

/// The digits of a number text: its ASCII digits in order, as bytes.
/// Whatever else the text holds leaves no trace.
pub open spec fn digits_of(num: Seq<char>) -> Seq<u8> {
    num.filter(|c: char| is_digit_char(c)).map_values(|c: char| c as u8)
}

/// Appending a character to a number text appends it to the digits if it
/// is a digit, and nothing otherwise.
pub proof fn lemma_digits_of_push(num: Seq<char>, c: char)
    ensures
        digits_of(num.push(c)) == if is_digit_char(c) {
            digits_of(num).push(c as u8)
        } else {
            digits_of(num)
        },
{
    let digit = |c: char| is_digit_char(c);
    let byte = |c: char| c as u8;
    num.lemma_filter_push(c, digit);
    if is_digit_char(c) {
        num.filter(digit).lemma_push_map_commute(byte, c);
    }
}

/// Extracts the digits of a number text.
pub fn number_digits(num: &str) -> (digits: Vec<u8>)
    ensures
        digits@ == digits_of(num@),
        all_digits(digits@),
{
    let mut digits: Vec<u8> = Vec::new();
    proof {
        assert(num@.take(0) =~= Seq::<char>::empty());
    }
    for ch in it: num.chars()
        invariant
            it.seq() == num@,
            digits@ == digits_of(num@.take(it.index() as int)),
            all_digits(digits@),
    {
        proof {
            lemma_digits_of_push(num@.take(it.index() as int), ch);
            assert(num@.take(it.index() + 1) =~= num@.take(it.index() as int).push(ch));
        }
        if '0' <= ch && ch <= '9' {
            digits.push(ch as u8);
        }
    }
    proof {
        assert(num@.take(num@.len() as int) =~= num@);
    }
    digits
}

} // verus!
