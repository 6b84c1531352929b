//! What every translation that the search reaches looks like.

use vstd::prelude::*;
use crate::dictionary::{bucket_of, well_keyed, Entries};
use crate::filter::{accepts, alternates, lemma_accepts_alternating_uniform, uniform_words, words_nonempty};
use crate::keypad::{all_digits, digit_key, is_letter, ZERO};
use crate::search::{by_bucket, by_words, candidates, has_match};
use crate::segment::Segment;

verus! {

/// The digits that a translation spells: the keys of its segments, one
/// after the other.
pub open spec fn spelled(stack: Seq<Segment>) -> Seq<u8>
    decreases stack.len(),
{
    if stack.len() == 0 {
        Seq::<u8>::empty()
    } else {
        spelled(stack.drop_last()) + stack.last().key()
    }
}

/// No digit segment stands next to another.
pub open spec fn no_adjacent_digits(stack: Seq<Segment>) -> bool {
    forall|i: int| 1 <= i < stack.len() ==> !(#[trigger] stack[i] is Digit && stack[i - 1] is Digit)
}

/// What a complete translation has kept of the translation that it grew
/// from, and of the digits that it grew by.
spec fn grown(dict: Entries, digits: Seq<u8>, stack: Seq<Segment>, full: Seq<Segment>) -> bool {
    &&& well_keyed(dict) && all_digits(digits) ==> spelled(full) == spelled(stack) + digits
    &&& no_adjacent_digits(stack) ==> no_adjacent_digits(full)
    &&& well_keyed(dict) && words_nonempty(stack) ==> words_nonempty(full)
}

/// A digit key is no longer than its word.
proof fn lemma_key_no_longer(word: Seq<char>)
    ensures
        digit_key(word).len() <= word.len(),
{
    word.lemma_filter_len(|c: char| is_letter(c));
}

/// What grew from a translation with one more word grew from the
/// translation.
proof fn lemma_grown_by_word(
    dict: Entries,
    digits: Seq<u8>,
    stack: Seq<Segment>,
    cut: nat,
    j: int,
    full: Seq<Segment>,
)
    requires
        1 <= cut <= digits.len(),
        0 <= j < bucket_of(dict, digits.take(cut as int)).len(),
        grown(
            dict,
            digits.skip(cut as int),
            stack.push(Segment::Word(bucket_of(dict, digits.take(cut as int))[j])),
            full,
        ),
    ensures
        grown(dict, digits, stack, full),
{
    let key = digits.take(cut as int);
    let word = bucket_of(dict, key)[j];
    let longer = stack.push(Segment::Word(word));
    assert(longer.drop_last() =~= stack);
    assert(dict.contains_key(key));
    if well_keyed(dict) {
        assert(digit_key(dict[key][j]) == key);
        lemma_key_no_longer(word);
        if all_digits(digits) {
            assert(all_digits(digits.skip(cut as int))) by {
                assert forall|k: int| 0 <= k < digits.skip(cut as int).len() implies ZERO
                    <= #[trigger] digits.skip(cut as int)[k] <= ZERO + 9 by {
                    assert(digits.skip(cut as int)[k] == digits[k + cut]);
                }
            }
            assert(spelled(longer) == spelled(stack) + key);
            assert(spelled(stack) + key + digits.skip(cut as int) =~= spelled(stack) + digits);
        }
        if words_nonempty(stack) {
            assert(words_nonempty(longer));
        }
    }
    if no_adjacent_digits(stack) {
        assert(no_adjacent_digits(longer));
    }
}

/// What grew from a translation with one more digit, where the
/// translation did not end with a digit, grew from the translation.
proof fn lemma_grown_by_digit(dict: Entries, digits: Seq<u8>, stack: Seq<Segment>, full: Seq<Segment>)
    requires
        digits.len() >= 1,
        !(stack.len() > 0 && stack.last() is Digit),
        grown(dict, digits.skip(1), stack.push(Segment::Digit((digits[0] - ZERO) as u8)), full),
    ensures
        grown(dict, digits, stack, full),
{
    let digit = Segment::Digit((digits[0] - ZERO) as u8);
    let longer = stack.push(digit);
    assert(longer.drop_last() =~= stack);
    if well_keyed(dict) && all_digits(digits) {
        assert(all_digits(digits.skip(1))) by {
            assert forall|k: int| 0 <= k < digits.skip(1).len() implies ZERO
                <= #[trigger] digits.skip(1)[k] <= ZERO + 9 by {
                assert(digits.skip(1)[k] == digits[k + 1]);
            }
        }
        assert(ZERO <= digits[0] <= ZERO + 9);
        assert(digit.key() =~= seq![digits[0]]);
        assert(spelled(longer) == spelled(stack) + seq![digits[0]]);
        assert(spelled(stack) + seq![digits[0]] + digits.skip(1) =~= spelled(stack) + digits);
    }
    if no_adjacent_digits(stack) {
        assert(no_adjacent_digits(longer));
    }
    if words_nonempty(stack) {
        assert(words_nonempty(longer));
    }
}

/// Every complete translation that the search reaches grew from where the
/// search began.
proof fn lemma_candidates_grown(dict: Entries, digits: Seq<u8>, stack: Seq<Segment>)
    ensures
        forall|k: int|
            0 <= k < candidates(dict, digits, stack).len() ==> grown(
                dict,
                digits,
                stack,
                #[trigger] candidates(dict, digits, stack)[k],
            ),
    decreases digits.len(), 2nat, 0nat,
{
    let found = candidates(dict, digits, stack);
    if digits.len() == 0 {
        assert(spelled(stack) + digits =~= spelled(stack));
        assert(found == seq![stack]);
        assert forall|k: int| 0 <= k < found.len() implies grown(dict, digits, stack, #[trigger] found[k]) by {
            assert(found[k] == stack);
        }
    } else if has_match(dict, digits) {
        lemma_by_words_grown(dict, digits, stack, digits.len());
        assert(found == by_words(dict, digits, stack, digits.len()));
    } else if stack.len() > 0 && stack.last() is Digit {
        assert(found.len() == 0);
    } else {
        let longer = stack.push(Segment::Digit((digits[0] - ZERO) as u8));
        lemma_candidates_grown(dict, digits.skip(1), longer);
        assert forall|k: int| 0 <= k < candidates(dict, digits, stack).len() implies grown(
            dict,
            digits,
            stack,
            #[trigger] candidates(dict, digits, stack)[k],
        ) by {
            let full = candidates(dict, digits.skip(1), longer)[k];
            lemma_grown_by_digit(dict, digits, stack, full);
        }
    }
}

/// The same of the translations that begin with a word for one of the
/// prefixes of the lengths 1 to `upto`.
proof fn lemma_by_words_grown(dict: Entries, digits: Seq<u8>, stack: Seq<Segment>, upto: nat)
    ensures
        forall|k: int|
            0 <= k < by_words(dict, digits, stack, upto).len() ==> grown(
                dict,
                digits,
                stack,
                #[trigger] by_words(dict, digits, stack, upto)[k],
            ),
    decreases digits.len(), 1nat, upto,
{
    if upto == 0 || upto > digits.len() {
    } else {
        let full = bucket_of(dict, digits.take(upto as int)).len();
        let earlier = by_words(dict, digits, stack, (upto - 1) as nat);
        let later = by_bucket(dict, digits, stack, upto, full);
        lemma_by_words_grown(dict, digits, stack, (upto - 1) as nat);
        lemma_by_bucket_grown(dict, digits, stack, upto, full);
        assert(by_words(dict, digits, stack, upto) == earlier + later);
        assert forall|k: int|
            0 <= k < by_words(dict, digits, stack, upto).len() implies grown(
            dict,
            digits,
            stack,
            #[trigger] by_words(dict, digits, stack, upto)[k],
        ) by {
            if k < earlier.len() {
                assert(by_words(dict, digits, stack, upto)[k] == earlier[k]);
            } else {
                assert(by_words(dict, digits, stack, upto)[k] == later[k - earlier.len()]);
            }
        }
    }
}

/// The same of the translations that begin with one of the first `upto`
/// words of the bucket of the prefix of length `cut`.
proof fn lemma_by_bucket_grown(
    dict: Entries,
    digits: Seq<u8>,
    stack: Seq<Segment>,
    cut: nat,
    upto: nat,
)
    ensures
        forall|k: int|
            0 <= k < by_bucket(dict, digits, stack, cut, upto).len() ==> grown(
                dict,
                digits,
                stack,
                #[trigger] by_bucket(dict, digits, stack, cut, upto)[k],
            ),
    decreases digits.len(), 0nat, upto,
{
    let bucket = bucket_of(dict, digits.take(cut as int));
    if upto == 0 || upto > bucket.len() || cut == 0 || cut > digits.len() {
    } else {
        let earlier = by_bucket(dict, digits, stack, cut, (upto - 1) as nat);
        let longer = stack.push(Segment::Word(bucket[upto - 1]));
        let later = candidates(dict, digits.skip(cut as int), longer);
        lemma_by_bucket_grown(dict, digits, stack, cut, (upto - 1) as nat);
        lemma_candidates_grown(dict, digits.skip(cut as int), longer);
        assert forall|k: int|
            0 <= k < by_bucket(dict, digits, stack, cut, upto).len() implies grown(
            dict,
            digits,
            stack,
            #[trigger] by_bucket(dict, digits, stack, cut, upto)[k],
        ) by {
            assert(by_bucket(dict, digits, stack, cut, upto) == earlier + later);
            if k >= earlier.len() {
                let full = later[k - earlier.len()];
                assert(by_bucket(dict, digits, stack, cut, upto)[k] == full);
                lemma_grown_by_word(dict, digits, stack, cut, upto - 1, full);
            } else {
                assert(by_bucket(dict, digits, stack, cut, upto)[k] == earlier[k]);
            }
        }
    }
}

/// Every complete translation that the search reaches spells the digits:
/// it begins with the translation that the search began with, as far as
/// its keys go, and the keys of what was added are the digits that were to
/// be translated. Begun with nothing, it spells exactly the digits.
pub proof fn lemma_translations_spell_digits(dict: Entries, digits: Seq<u8>, stack: Seq<Segment>)
    requires
        well_keyed(dict),
        all_digits(digits),
    ensures
        forall|k: int|
            0 <= k < candidates(dict, digits, stack).len() ==> spelled(
                #[trigger] candidates(dict, digits, stack)[k],
            ) == spelled(stack) + digits,
        forall|k: int|
            0 <= k < candidates(dict, digits, Seq::<Segment>::empty()).len() ==> spelled(
                #[trigger] candidates(dict, digits, Seq::<Segment>::empty())[k],
            ) == digits,
{
    lemma_candidates_grown(dict, digits, stack);
    lemma_candidates_grown(dict, digits, Seq::<Segment>::empty());
    assert(spelled(Seq::<Segment>::empty()) + digits =~= digits);
}

/// No complete translation that the search reaches has two digit segments
/// next to each other, if the translation that it began with has none.
/// This holds of accepted and rejected translations alike, and whatever
/// the dictionary holds.
pub proof fn lemma_translations_no_adjacent_digits(
    dict: Entries,
    digits: Seq<u8>,
    stack: Seq<Segment>,
)
    requires
        no_adjacent_digits(stack),
    ensures
        forall|k: int|
            0 <= k < candidates(dict, digits, stack).len() ==> no_adjacent_digits(
                #[trigger] candidates(dict, digits, stack)[k],
            ),
{
    lemma_candidates_grown(dict, digits, stack);
}

/// In every accepted translation of more than one segment that the search
/// reaches, the kinds of the segments alternate and the words all have one
/// length.
pub proof fn lemma_accepted_translations_alternate(
    dict: Entries,
    digits: Seq<u8>,
    stack: Seq<Segment>,
)
    requires
        well_keyed(dict),
        words_nonempty(stack),
    ensures
        forall|k: int|
            #![trigger candidates(dict, digits, stack)[k]]
            0 <= k < candidates(dict, digits, stack).len() && accepts(
                candidates(dict, digits, stack)[k],
            ) && candidates(dict, digits, stack)[k].len() > 1 ==> alternates(
                candidates(dict, digits, stack)[k],
            ) && uniform_words(candidates(dict, digits, stack)[k]),
{
    lemma_candidates_grown(dict, digits, stack);
    assert forall|k: int|
        #![trigger candidates(dict, digits, stack)[k]]
        0 <= k < candidates(dict, digits, stack).len() && accepts(
            candidates(dict, digits, stack)[k],
        ) && candidates(dict, digits, stack)[k].len() > 1 implies alternates(
        candidates(dict, digits, stack)[k],
    ) && uniform_words(candidates(dict, digits, stack)[k]) by {
        lemma_accepts_alternating_uniform(candidates(dict, digits, stack)[k]);
    }
}

} // verus!
