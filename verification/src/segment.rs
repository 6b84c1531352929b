//! Segments: the units of a translation, each a dictionary word or one digit.

use vstd::prelude::*;
use vstd::utf8::encode_utf8;
use vstd::string::StrSliceExecFns;
use crate::keypad::{digit_key, ZERO};

verus! {

/// What a segment is: the characters of a word, or the value of a digit.
pub enum Segment {
    Word(Seq<char>),
    Digit(u8),
}

impl Segment {
    /// The length of a segment: the number of characters of a word; 1 for a
    /// digit.
    pub open spec fn len(self) -> nat {
        match self {
            Segment::Word(w) => w.len(),
            Segment::Digit(_) => 1,
        }
    }

    /// The digits that a segment stands for: the digit key of a word; the
    /// ASCII digit of a digit segment.
    pub open spec fn key(self) -> Seq<u8> {
        match self {
            Segment::Word(w) => digit_key(w),
            Segment::Digit(d) => seq![(ZERO + d) as u8],
        }
    }

    /// The bytes that a segment is written as: the UTF-8 encoding of a word;
    /// the decimal numeral of a digit segment.
    pub open spec fn text(self) -> Seq<u8> {
        match self {
            Segment::Word(w) => encode_utf8(w),
            Segment::Digit(d) => decimal(d),
        }
    }
}

/// The decimal numeral of a byte, in ASCII, without leading zeros.
pub open spec fn decimal(d: u8) -> Seq<u8> {
    let hundreds = if d >= 100 {
        seq![(ZERO + d / 100) as u8]
    } else {
        Seq::<u8>::empty()
    };
    let tens = if d >= 10 {
        seq![(ZERO + (d / 10) % 10) as u8]
    } else {
        Seq::<u8>::empty()
    };
    hundreds + tens + seq![(ZERO + d % 10) as u8]
}

/// A segment of a translation: a word borrowed from the dictionary, or a
/// digit taken from the number as it stands.
#[derive(Debug, Clone, Copy)]
pub enum WordOrDigit<'a> {
    Word(&'a str),
    Digit(u8),
}

impl<'a> View for WordOrDigit<'a> {
    type V = Segment;

    open spec fn view(&self) -> Segment {
        match *self {
            WordOrDigit::Word(w) => Segment::Word(w@),
            WordOrDigit::Digit(d) => Segment::Digit(d),
        }
    }
}

impl<'a> DeepView for WordOrDigit<'a> {
    type V = Segment;

    open spec fn deep_view(&self) -> Segment {
        self@
    }
}

impl<'a> WordOrDigit<'a> {
    /// The length of the segment, counted in characters.
    pub fn len(&self) -> (n: usize)
        ensures
            n == self@.len(),
    {
        match self {
            WordOrDigit::Word(w) => w.unicode_len(),
            WordOrDigit::Digit(_) => 1,
        }
    }

    /// Whether the segment is a digit.
    pub fn is_digit(&self) -> (yes: bool)
        ensures
            yes == (self@ is Digit),
    {
        match self {
            WordOrDigit::Word(_) => false,
            WordOrDigit::Digit(_) => true,
        }
    }

    /// Appends the segment's text to `out`.
    pub fn write_to(&self, out: &mut Vec<u8>)
        ensures
            final(out)@ == old(out)@ + self@.text(),
    {
        match self {
            WordOrDigit::Word(w) => {
                let ghost before = out@;
                out.extend_from_slice(w.as_bytes());
                assert(out@ =~= before + encode_utf8(w@));
            },
            WordOrDigit::Digit(d) => {
                let d: u8 = *d;
                let ghost before = out@;
                if d >= 100 {
                    out.push(ZERO + d / 100);
                }
                if d >= 10 {
                    out.push(ZERO + (d / 10) % 10);
                }
                out.push(ZERO + d % 10);
                assert(out@ =~= before + decimal(d));
            },
        }
    }
}

} // verus!
