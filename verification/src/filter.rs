//! The acceptance filter: which complete translations are counted as
//! solutions.

use vstd::prelude::*;
use crate::segment::{Segment, WordOrDigit};

verus! {

/// The word length that the scan of a translation holds after its segment
/// `i`. It starts as the length of the first segment if that is a word, and
/// as 0 if it is a digit; while it is 0, the next segment's length replaces
/// it.
pub open spec fn fixed_length(stack: Seq<Segment>, i: int) -> nat
    decreases i,
{
    if i <= 0 {
        match stack[0] {
            Segment::Word(w) => w.len(),
            Segment::Digit(_) => 0,
        }
    } else {
        let before = fixed_length(stack, i - 1);
        if before == 0 {
            stack[i].len()
        } else {
            before
        }
    }
}

/// Segment `i` of a translation passes the scan: it is of the other kind
/// than the segment before it, and if it is a word, it has the length that
/// the scan holds.
pub open spec fn segment_fits(stack: Seq<Segment>, i: int) -> bool {
    &&& (stack[i] is Digit) != (stack[i - 1] is Digit)
    &&& stack[i] is Word ==> stack[i].len() == fixed_length(stack, i)
}

/// Whether a translation is accepted: it is not empty, and each segment
/// after the first passes the scan. A translation of one segment is always
/// accepted.
pub open spec fn accepts(stack: Seq<Segment>) -> bool {
    &&& stack.len() >= 1
    &&& forall|i: int| 1 <= i < stack.len() ==> segment_fits(stack, i)
}

/// The kinds of neighbouring segments differ throughout.
pub open spec fn alternates(stack: Seq<Segment>) -> bool {
    forall|i: int| 1 <= i < stack.len() ==> (#[trigger] stack[i] is Digit) != (stack[i - 1] is Digit)
}

/// All word segments have the same length.
pub open spec fn uniform_words(stack: Seq<Segment>) -> bool {
    forall|i: int, j: int|
        0 <= i < stack.len() && 0 <= j < stack.len() && #[trigger] stack[i] is Word
            && #[trigger] stack[j] is Word ==> stack[i].len() == stack[j].len()
}

/// No word segment is the empty word.
pub open spec fn words_nonempty(stack: Seq<Segment>) -> bool {
    forall|i: int| 0 <= i < stack.len() && #[trigger] stack[i] is Word ==> stack[i].len() > 0
}

/// The index of the first word of a translation whose kinds alternate.
pub open spec fn first_word(stack: Seq<Segment>) -> int {
    if stack[0] is Word {
        0
    } else {
        1
    }
}

/// Where kinds alternate up to segment `i` and no word is empty, the scan
/// holds the length of the first word from the first word on.
proof fn lemma_fixed_length_is_first_word(stack: Seq<Segment>, i: int)
    requires
        words_nonempty(stack),
        first_word(stack) <= i < stack.len(),
        forall|k: int| 1 <= k <= i ==> (#[trigger] stack[k] is Digit) != (stack[k - 1] is Digit),
    ensures
        stack[first_word(stack)] is Word,
        fixed_length(stack, i) == stack[first_word(stack)].len(),
        fixed_length(stack, i) > 0,
    decreases i,
{
    if i == first_word(stack) {
        if i == 1 {
            assert(stack[1] is Digit != stack[0] is Digit);
            assert(fixed_length(stack, 0) == 0);
        }
    } else {
        lemma_fixed_length_is_first_word(stack, i - 1);
    }
}

/// Of a translation without empty words: it is accepted if and only if it
/// is not empty, the kinds of its segments alternate, and its words all have
/// one length.
pub proof fn lemma_accepts_alternating_uniform(stack: Seq<Segment>)
    requires
        words_nonempty(stack),
    ensures
        accepts(stack) <==> stack.len() >= 1 && alternates(stack) && uniform_words(stack),
{
    if accepts(stack) {
        assert forall|i: int| 1 <= i < stack.len() implies (#[trigger] stack[i] is Digit) != (stack[i
            - 1] is Digit) by {
            assert(segment_fits(stack, i));
        }
        assert forall|i: int| 0 <= i < stack.len() && #[trigger] stack[i] is Word implies stack[i].len()
            == stack[first_word(stack)].len() by {
            if i >= 1 {
                assert(segment_fits(stack, i));
                lemma_fixed_length_is_first_word(stack, i);
            }
        }
    }
    if stack.len() >= 1 && alternates(stack) && uniform_words(stack) {
        assert forall|i: int| 1 <= i < stack.len() implies segment_fits(stack, i) by {
            assert((stack[i] is Digit) != (stack[i - 1] is Digit));
            if stack[i] is Word {
                lemma_fixed_length_is_first_word(stack, i);
            }
        }
    }
}

/// Decides whether a translation is accepted.
pub fn should_print(words: &[WordOrDigit]) -> (ok: bool)
    ensures
        ok == accepts(words.deep_view()),
{
    let ghost stack = words.deep_view();
    if words.len() == 0 {
        return false;
    }
    if words.len() == 1 {
        return true;
    }
    let mut was_digit: bool = words[0].is_digit();
    let mut acceptable_len: usize = if was_digit {
        0
    } else {
        words[0].len()
    };
    let mut i: usize = 1;
    while i < words.len()
        invariant
            1 <= i <= words.len(),
            stack == words.deep_view(),
            stack.len() == words.len(),
            was_digit == (stack[i - 1] is Digit),
            acceptable_len == fixed_length(stack, i - 1),
            forall|k: int| 1 <= k < i ==> segment_fits(stack, k),
        decreases words.len() - i,
    {
        let word = &words[i];
        let len = word.len();
        if acceptable_len == 0 {
            acceptable_len = len;
        }
        let is_digit = word.is_digit();
        if was_digit == is_digit || (!is_digit && len != acceptable_len) {
            assert(!segment_fits(stack, i as int));
            return false;
        }
        was_digit = is_digit;
        i += 1;
    }
    true
}

} // verus!
