use phone_encoder::format::{print_solution, render};
use phone_encoder::segment::WordOrDigit;
use phone_encoder::segment::WordOrDigit::{Digit, Word};

fn rendering(num: &str, words: &[WordOrDigit]) -> Vec<u8> {
    let mut out = Vec::new();
    render(num, words, &mut out);
    out
}

#[test]
fn segments_are_joined_by_single_spaces_and_end_the_line() {
    assert_eq!(rendering("4824", &[Word("Torf")]), b"4824: Torf\n".to_vec());
    assert_eq!(rendering("4824", &[Word("Tor"), Digit(4)]), b"4824: Tor 4\n".to_vec());
    assert_eq!(
        rendering("10/783--5", &[Word("neu"), Word("o\"d"), Digit(5)]),
        b"10/783--5: neu o\"d 5\n".to_vec()
    );
    assert_eq!(rendering("04824", &[Digit(0), Word("Tor"), Digit(4)]), b"04824: 0 Tor 4\n".to_vec());
}

#[test]
fn empty_translation_renders_as_number_and_colon() {
    assert_eq!(rendering("4824", &[]), b"4824:".to_vec());
    assert_eq!(rendering("", &[]), b":".to_vec());
}

#[test]
fn number_text_is_echoed_as_given() {
    assert_eq!(rendering(" 0721/608-4067 ", &[Digit(1)]), b" 0721/608-4067 : 1\n".to_vec());
    assert_eq!(rendering("n\u{b0} 5", &[Word("\u{e4}b")]), "n\u{b0} 5: \u{e4}b\n".as_bytes().to_vec());
}

#[test]
fn render_appends_to_what_is_there() {
    let mut out = b"4824: fort\n".to_vec();
    render("4824", &[Word("Torf")], &mut out);
    assert_eq!(out, b"4824: fort\n4824: Torf\n".to_vec());
}

#[test]
fn digit_segment_is_written_in_decimal() {
    for d in 0..=9u8 {
        let mut out = Vec::new();
        Digit(d).write_to(&mut out);
        assert_eq!(out, vec![b'0' + d]);
    }
    let mut out = Vec::new();
    Digit(10).write_to(&mut out);
    Digit(99).write_to(&mut out);
    Digit(100).write_to(&mut out);
    Digit(207).write_to(&mut out);
    Digit(255).write_to(&mut out);
    assert_eq!(out, b"1099100207255".to_vec());
}

#[test]
fn word_segment_is_written_as_its_text() {
    let mut out = b"x".to_vec();
    Word("bo\"s").write_to(&mut out);
    Word("").write_to(&mut out);
    Word("\u{e4}").write_to(&mut out);
    assert_eq!(out, "xbo\"s\u{e4}".as_bytes().to_vec());
}

#[test]
fn print_solution_writes_accepted_translations() {
    let mut out = Vec::new();
    assert!(print_solution("4824", &[Word("Tor"), Digit(4)], &mut out));
    assert_eq!(out, b"4824: Tor 4\n".to_vec());
    assert!(print_solution("4824", &[Word("fort")], &mut out));
    assert_eq!(out, b"4824: Tor 4\n4824: fort\n".to_vec());
}

#[test]
fn print_solution_leaves_out_rejected_translations() {
    let mut out = b"kept".to_vec();
    assert!(!print_solution("562482", &[Word("mir"), Word("Tor")], &mut out));
    assert!(!print_solution("381482", &[Word("so"), Digit(1), Word("Tor")], &mut out));
    assert_eq!(out, b"kept".to_vec());
}

#[test]
fn print_solution_writes_the_bare_number_for_the_empty_translation() {
    let mut out = Vec::new();
    assert!(!print_solution("abc", &[], &mut out));
    assert_eq!(out, b"abc:".to_vec());
}
