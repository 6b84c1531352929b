//! The search: every way to cut the digits of a number into dictionary words
//! and lone digits, in the order in which the translations are written.

use vstd::prelude::*;
use vstd::slice::slice_subrange;
use crate::dictionary::{bucket_of, index_of, Dictionary, Entries};
use crate::filter::accepts;
use crate::format::{print_solution, printed};
use crate::keypad::{all_digits, digits_of, number_digits, ZERO};
use crate::segment::{Segment, WordOrDigit};

verus! {

/// Some prefix of the digits is the key of a word.
pub open spec fn has_match(dict: Entries, digits: Seq<u8>) -> bool {
    exists|cut: int| 1 <= cut <= digits.len() && #[trigger] bucket_of(dict, digits.take(cut)).len() > 0
}

/// The complete translations that the search reaches from the translation
/// `stack` with `digits` still to be translated, in the order in which it
/// reaches them.
///
/// With no digit left, `stack` itself is the one complete translation.
/// Otherwise every prefix that is the key of a word is tried, the shorter
/// prefix first, and each word of its bucket in the bucket's order. Only if
/// no prefix is the key of a word does the first digit stand for itself, and
/// only if `stack` does not end with a digit; if it does, nothing is
/// reached.
pub open spec fn candidates(dict: Entries, digits: Seq<u8>, stack: Seq<Segment>) -> Seq<
    Seq<Segment>,
>
    decreases digits.len(), 2nat, 0nat,
{
    if digits.len() == 0 {
        seq![stack]
    } else if has_match(dict, digits) {
        by_words(dict, digits, stack, digits.len())
    } else if stack.len() > 0 && stack.last() is Digit {
        Seq::<Seq<Segment>>::empty()
    } else {
        candidates(dict, digits.skip(1), stack.push(Segment::Digit((digits[0] - ZERO) as u8)))
    }
}

/// The complete translations that begin with a word for one of the prefixes
/// of the lengths 1 to `upto`.
pub open spec fn by_words(dict: Entries, digits: Seq<u8>, stack: Seq<Segment>, upto: nat) -> Seq<
    Seq<Segment>,
>
    decreases digits.len(), 1nat, upto,
{
    if upto == 0 || upto > digits.len() {
        Seq::<Seq<Segment>>::empty()
    } else {
        by_words(dict, digits, stack, (upto - 1) as nat) + by_bucket(
            dict,
            digits,
            stack,
            upto,
            bucket_of(dict, digits.take(upto as int)).len(),
        )
    }
}

/// The complete translations that begin with one of the first `upto` words
/// of the bucket of the prefix of length `cut`.
pub open spec fn by_bucket(
    dict: Entries,
    digits: Seq<u8>,
    stack: Seq<Segment>,
    cut: nat,
    upto: nat,
) -> Seq<Seq<Segment>>
    decreases digits.len(), 0nat, upto,
{
    let bucket = bucket_of(dict, digits.take(cut as int));
    if upto == 0 || upto > bucket.len() || cut == 0 || cut > digits.len() {
        Seq::<Seq<Segment>>::empty()
    } else {
        by_bucket(dict, digits, stack, cut, (upto - 1) as nat) + candidates(
            dict,
            digits.skip(cut as int),
            stack.push(Segment::Word(bucket[upto - 1])),
        )
    }
}

/// What the complete translations of a list write, one after the other.
pub open spec fn output(num: Seq<char>, found: Seq<Seq<Segment>>) -> Seq<u8>
    decreases found.len(),
{
    if found.len() == 0 {
        Seq::<u8>::empty()
    } else {
        output(num, found.drop_last()) + printed(num, found.last())
    }
}

/// How many of the translations of a list are accepted.
pub open spec fn accepted_count(found: Seq<Seq<Segment>>) -> nat {
    found.filter(|stack: Seq<Segment>| accepts(stack)).len()
}

/// How many of the translations of a list are rejected.
pub open spec fn rejected_count(found: Seq<Seq<Segment>>) -> nat {
    found.filter(|stack: Seq<Segment>| !accepts(stack)).len()
}

/// What two lists of translations write one after the other is what the
/// one list of both writes.
pub proof fn lemma_output_add(num: Seq<char>, a: Seq<Seq<Segment>>, b: Seq<Seq<Segment>>)
    ensures
        output(num, a + b) == output(num, a) + output(num, b),
    decreases b.len(),
{
    if b.len() == 0 {
        assert(a + b =~= a);
    } else {
        assert((a + b).drop_last() =~= a + b.drop_last());
        lemma_output_add(num, a, b.drop_last());
        assert(output(num, a + b) =~= output(num, a) + output(num, b));
    }
}

/// A list of one translation writes what that translation writes.
pub proof fn lemma_output_one(num: Seq<char>, stack: Seq<Segment>)
    ensures
        output(num, seq![stack]) == printed(num, stack),
{
    let one = seq![stack];
    assert(one.drop_last() =~= Seq::<Seq<Segment>>::empty());
    assert(output(num, one.drop_last()) =~= Seq::<u8>::empty());
    assert(one.last() == stack);
    assert(output(num, one) =~= printed(num, stack));
}

/// The counts of two lists add up to the counts of the one list of both.
pub proof fn lemma_counts_add(a: Seq<Seq<Segment>>, b: Seq<Seq<Segment>>)
    ensures
        accepted_count(a + b) == accepted_count(a) + accepted_count(b),
        rejected_count(a + b) == rejected_count(a) + rejected_count(b),
{
    Seq::filter_distributes_over_add(a, b, |stack: Seq<Segment>| accepts(stack));
    Seq::filter_distributes_over_add(a, b, |stack: Seq<Segment>| !accepts(stack));
}

/// A list of one translation counts one accepted or one rejected.
pub proof fn lemma_counts_one(stack: Seq<Segment>)
    ensures
        accepted_count(seq![stack]) == if accepts(stack) { 1nat } else { 0nat },
        rejected_count(seq![stack]) == if accepts(stack) { 0nat } else { 1nat },
{
    let none = Seq::<Seq<Segment>>::empty();
    assert(none.push(stack) =~= seq![stack]);
    none.lemma_filter_push(stack, |stack: Seq<Segment>| accepts(stack));
    none.lemma_filter_push(stack, |stack: Seq<Segment>| !accepts(stack));
    none.lemma_filter_len(|stack: Seq<Segment>| accepts(stack));
    none.lemma_filter_len(|stack: Seq<Segment>| !accepts(stack));
}

/// The empty list counts nothing and writes nothing.
pub proof fn lemma_none_found(num: Seq<char>)
    ensures
        accepted_count(Seq::<Seq<Segment>>::empty()) == 0,
        rejected_count(Seq::<Seq<Segment>>::empty()) == 0,
        output(num, Seq::<Seq<Segment>>::empty()) == Seq::<u8>::empty(),
{
    let none = Seq::<Seq<Segment>>::empty();
    none.lemma_filter_len(|stack: Seq<Segment>| accepts(stack));
    none.lemma_filter_len(|stack: Seq<Segment>| !accepts(stack));
}

/// Every complete translation is counted once: as accepted or as rejected.
pub proof fn lemma_counts_cover(found: Seq<Seq<Segment>>)
    ensures
        accepted_count(found) + rejected_count(found) == found.len(),
    decreases found.len(),
{
    if found.len() == 0 {
        lemma_none_found(Seq::<char>::empty());
        assert(found =~= Seq::<Seq<Segment>>::empty());
    } else {
        lemma_counts_cover(found.drop_last());
        lemma_counts_add(found.drop_last(), seq![found.last()]);
        lemma_counts_one(found.last());
        assert(found.drop_last() + seq![found.last()] =~= found);
    }
}

/// The words of the first `j` entries of a bucket are followed, in the list
/// for the first `k`, by what the later entries reach.
proof fn lemma_bucket_grows(
    dict: Entries,
    digits: Seq<u8>,
    stack: Seq<Segment>,
    cut: nat,
    j: nat,
    k: nat,
) -> (tail: Seq<Seq<Segment>>)
    requires
        1 <= cut <= digits.len(),
        j <= k <= bucket_of(dict, digits.take(cut as int)).len(),
    ensures
        by_bucket(dict, digits, stack, cut, k) == by_bucket(dict, digits, stack, cut, j) + tail,
    decreases k,
{
    if j == k {
        let tail = Seq::<Seq<Segment>>::empty();
        assert(by_bucket(dict, digits, stack, cut, j) + tail =~= by_bucket(dict, digits, stack, cut, j));
        tail
    } else {
        let shorter = lemma_bucket_grows(dict, digits, stack, cut, j, (k - 1) as nat);
        let bucket = bucket_of(dict, digits.take(cut as int));
        let step = candidates(dict, digits.skip(cut as int), stack.push(Segment::Word(bucket[k - 1])));
        let tail = shorter + step;
        assert(by_bucket(dict, digits, stack, cut, k) =~= by_bucket(dict, digits, stack, cut, j)
            + tail);
        tail
    }
}

/// The list for the prefixes up to the length `a` is followed, in the list
/// for those up to `b`, by what the longer prefixes reach.
proof fn lemma_words_grow(dict: Entries, digits: Seq<u8>, stack: Seq<Segment>, a: nat, b: nat) -> (tail:
    Seq<Seq<Segment>>)
    requires
        a <= b <= digits.len(),
    ensures
        by_words(dict, digits, stack, b) == by_words(dict, digits, stack, a) + tail,
    decreases b,
{
    if a == b {
        let tail = Seq::<Seq<Segment>>::empty();
        assert(by_words(dict, digits, stack, a) + tail =~= by_words(dict, digits, stack, a));
        tail
    } else {
        let shorter = lemma_words_grow(dict, digits, stack, a, (b - 1) as nat);
        let step = by_bucket(
            dict,
            digits,
            stack,
            b,
            bucket_of(dict, digits.take(b as int)).len(),
        );
        let tail = shorter + step;
        assert(by_words(dict, digits, stack, b) =~= by_words(dict, digits, stack, a) + tail);
        tail
    }
}

/// While the search is at word `upto` of the bucket of the prefix of length
/// `cut`, it has not counted more than it will have counted at its end.
proof fn lemma_counts_so_far(
    dict: Entries,
    digits: Seq<u8>,
    stack: Seq<Segment>,
    cut: nat,
    upto: nat,
)
    requires
        1 <= cut <= digits.len(),
        1 <= upto <= bucket_of(dict, digits.take(cut as int)).len(),
    ensures
        accepted_count(
            by_words(dict, digits, stack, (cut - 1) as nat) + by_bucket(dict, digits, stack, cut, upto),
        ) <= accepted_count(candidates(dict, digits, stack)),
        rejected_count(
            by_words(dict, digits, stack, (cut - 1) as nat) + by_bucket(dict, digits, stack, cut, upto),
        ) <= rejected_count(candidates(dict, digits, stack)),
{
    let before = by_words(dict, digits, stack, (cut - 1) as nat);
    let here = by_bucket(dict, digits, stack, cut, upto);
    let full = bucket_of(dict, digits.take(cut as int)).len();
    let rest_of_bucket = lemma_bucket_grows(dict, digits, stack, cut, upto, full);
    let rest_of_words = lemma_words_grow(dict, digits, stack, cut, digits.len());
    assert(has_match(dict, digits));
    let all = candidates(dict, digits, stack);
    assert(all == by_words(dict, digits, stack, digits.len()));
    assert(all =~= (before + here) + (rest_of_bucket + rest_of_words));
    lemma_counts_add(before + here, rest_of_bucket + rest_of_words);
}

/// Where no prefix is the key of a word, no translation begins with a word.
proof fn lemma_no_match_no_words(dict: Entries, digits: Seq<u8>, stack: Seq<Segment>, upto: nat)
    requires
        !has_match(dict, digits),
        upto <= digits.len(),
    ensures
        by_words(dict, digits, stack, upto) == Seq::<Seq<Segment>>::empty(),
    decreases upto,
{
    if upto > 0 {
        lemma_no_match_no_words(dict, digits, stack, (upto - 1) as nat);
        assert(bucket_of(dict, digits.take(upto as int)).len() == 0);
        assert(by_bucket(dict, digits, stack, upto, 0) =~= Seq::<Seq<Segment>>::empty());
        assert(by_words(dict, digits, stack, upto) =~= Seq::<Seq<Segment>>::empty());
    }
}

/// Translates `digits` in every way that the search reaches from the
/// translation in `words`: each complete translation is handed to
/// `print_solution`, which writes to `out` what is to be written of it, and
/// is counted in `solution_count` if it was accepted and in
/// `rejected_solution_count` if not. `words` is used as a stack and is left
/// as it was found. `num` is the number text that lines begin with.
///
/// The two counts must have room for what is counted.
pub fn print_translations<'a>(
    solution_count: &mut usize,
    rejected_solution_count: &mut u64,
    num: &str,
    digits: &[u8],
    words: &mut Vec<WordOrDigit<'a>>,
    dict: &'a Dictionary,
    out: &mut Vec<u8>,
)
    requires
        all_digits(digits@),
        *old(solution_count) + accepted_count(candidates(dict@, digits@, old(words).deep_view()))
            <= usize::MAX,
        *old(rejected_solution_count) + rejected_count(
            candidates(dict@, digits@, old(words).deep_view()),
        ) <= u64::MAX,
    ensures
        final(words)@ == old(words)@,
        final(out)@ == old(out)@ + output(
            num@,
            candidates(dict@, digits@, old(words).deep_view()),
        ),
        *final(solution_count) == *old(solution_count) + accepted_count(
            candidates(dict@, digits@, old(words).deep_view()),
        ),
        *final(rejected_solution_count) == *old(rejected_solution_count) + rejected_count(
            candidates(dict@, digits@, old(words).deep_view()),
        ),
    decreases digits@.len(),
{
    let ghost stack0 = words@;
    let ghost stack = words.deep_view();
    let ghost out0 = out@;
    let ghost accepted0 = *solution_count as int;
    let ghost rejected0 = *rejected_solution_count as int;
    let ghost all = candidates(dict@, digits@, stack);
    let n = digits.len();
    if n == 0 {
        proof {
            lemma_output_one(num@, stack);
            lemma_counts_one(stack);
        }
        if print_solution(num, words.as_slice(), out) {
            *solution_count += 1;
        } else {
            *rejected_solution_count += 1;
        }
        return ;
    }
    let mut found_word = false;
    let mut i: usize = 0;
    proof {
        lemma_none_found(num@);
        assert(out@ =~= out0 + output(num@, by_words(dict@, digits@, stack, 0)));
    }
    while i < n
        invariant
            0 < n == digits@.len(),
            i <= n,
            all_digits(digits@),
            words@ == stack0,
            words.deep_view() == stack,
            all == candidates(dict@, digits@, stack),
            accepted0 + accepted_count(all) <= usize::MAX,
            rejected0 + rejected_count(all) <= u64::MAX,
            out@ == out0 + output(num@, by_words(dict@, digits@, stack, i as nat)),
            *solution_count == accepted0 + accepted_count(by_words(dict@, digits@, stack, i as nat)),
            *rejected_solution_count == rejected0 + rejected_count(
                by_words(dict@, digits@, stack, i as nat),
            ),
            found_word <==> exists|cut: int|
                1 <= cut <= i && #[trigger] bucket_of(dict@, digits@.take(cut)).len() > 0,
        decreases n - i,
    {
        let key = slice_subrange(digits, 0, i + 1);
        let rest = slice_subrange(digits, i + 1, n);
        let ghost cut = (i + 1) as nat;
        let ghost before = by_words(dict@, digits@, stack, i as nat);
        let ghost found_before = found_word;
        proof {
            assert(key@ =~= digits@.take(cut as int));
            assert(rest@ =~= digits@.skip(cut as int));
            lemma_none_found(num@);
            assert(before + by_bucket(dict@, digits@, stack, cut, 0) =~= before);
        }
        let ghost bucket = bucket_of(dict@, digits@.take(cut as int));
        if let Some(found_words) = dict.get(key) {
            let mut j: usize = 0;
            while j < found_words.len()
                invariant
                    0 < n == digits@.len(),
                    i < n,
                    cut == i + 1,
                    j <= found_words.len(),
                    found_words.deep_view() == bucket,
                    bucket == bucket_of(dict@, digits@.take(cut as int)),
                    rest@ == digits@.skip(cut as int),
                    all_digits(digits@),
                    words@ == stack0,
                    words.deep_view() == stack,
                    all == candidates(dict@, digits@, stack),
                    accepted0 + accepted_count(all) <= usize::MAX,
                    rejected0 + rejected_count(all) <= u64::MAX,
                    before == by_words(dict@, digits@, stack, i as nat),
                    out@ == out0 + output(
                        num@,
                        before + by_bucket(dict@, digits@, stack, cut, j as nat),
                    ),
                    *solution_count == accepted0 + accepted_count(
                        before + by_bucket(dict@, digits@, stack, cut, j as nat),
                    ),
                    *rejected_solution_count == rejected0 + rejected_count(
                        before + by_bucket(dict@, digits@, stack, cut, j as nat),
                    ),
                    found_word <==> found_before || j > 0,
                decreases found_words.len() - j,
            {
                found_word = true;
                let word = WordOrDigit::Word(found_words[j].as_str());
                let ghost sofar = before + by_bucket(dict@, digits@, stack, cut, j as nat);
                let ghost longer = stack.push(word@);
                let ghost reached = candidates(dict@, rest@, longer);
                proof {
                    assert(bucket[j as int] == found_words@[j as int]@);
                    assert(word@ == Segment::Word(bucket[j as int]));
                    assert(by_bucket(dict@, digits@, stack, cut, (j + 1) as nat) == by_bucket(
                        dict@,
                        digits@,
                        stack,
                        cut,
                        j as nat,
                    ) + reached);
                    assert(before + by_bucket(dict@, digits@, stack, cut, (j + 1) as nat) =~= sofar
                        + reached);
                    lemma_counts_so_far(dict@, digits@, stack, cut, (j + 1) as nat);
                    lemma_counts_add(sofar, reached);
                    lemma_output_add(num@, sofar, reached);
                    assert forall|k: int| 0 <= k < rest@.len() implies ZERO <= #[trigger] rest@[k]
                        <= ZERO + 9 by {
                        assert(rest@[k] == digits@[k + cut]);
                    }
                }
                words.push(word);
                assert(words.deep_view() =~= longer);
                print_translations(
                    solution_count,
                    rejected_solution_count,
                    num,
                    rest,
                    words,
                    dict,
                    out,
                );
                words.pop();
                assert(words@ =~= stack0);
                assert(words.deep_view() =~= stack);
                assert(out@ =~= out0 + output(num@, sofar + reached));
                j += 1;
            }
        }
        proof {
            assert(by_words(dict@, digits@, stack, cut) == before + by_bucket(
                dict@,
                digits@,
                stack,
                cut,
                bucket.len(),
            ));
            if found_word {
                if found_before {
                    let c = choose|c: int|
                        1 <= c <= i && #[trigger] bucket_of(dict@, digits@.take(c)).len() > 0;
                    assert(1 <= c <= i + 1 && bucket_of(dict@, digits@.take(c)).len() > 0);
                } else {
                    assert(bucket_of(dict@, digits@.take(cut as int)).len() > 0);
                }
            }
        }
        i += 1;
    }
    if found_word {
        proof {
            let c = choose|c: int| 1 <= c <= n && #[trigger] bucket_of(dict@, digits@.take(c)).len() > 0;
            assert(has_match(dict@, digits@));
        }
        return ;
    }
    proof {
        assert(!has_match(dict@, digits@));
        lemma_no_match_no_words(dict@, digits@, stack, n as nat);
        lemma_none_found(num@);
        assert(out@ =~= out0);
    }
    let last_is_digit = words.len() > 0 && words[words.len() - 1].is_digit();
    proof {
        if words.len() > 0 {
            assert(stack.last() == words@[words.len() - 1]@);
        }
    }
    if !last_is_digit {
        let digit = digits[0] - ZERO;
        let word = WordOrDigit::Digit(digit);
        let rest = slice_subrange(digits, 1, n);
        let ghost longer = stack.push(word@);
        proof {
            assert(rest@ =~= digits@.skip(1));
            assert(all == candidates(dict@, rest@, longer));
            assert forall|k: int| 0 <= k < rest@.len() implies ZERO <= #[trigger] rest@[k] <= ZERO
                + 9 by {
                assert(rest@[k] == digits@[k + 1]);
            }
        }
        words.push(word);
        assert(words.deep_view() =~= longer);
        print_translations(solution_count, rejected_solution_count, num, rest, words, dict, out);
        words.pop();
        assert(words@ =~= stack0);
    } else {
        proof {
            assert(all =~= Seq::<Seq<Segment>>::empty());
            assert(out@ =~= out0 + output(num@, all));
        }
    }
}

/// The complete translations that the search reaches for a number text:
/// those of its digits, begun with nothing.
pub open spec fn translations(dict: Entries, num: Seq<char>) -> Seq<Seq<Segment>> {
    candidates(dict, digits_of(num), Seq::<Segment>::empty())
}

/// Translates one number text: whatever in it is no digit is left out of
/// the search, which starts from the empty translation; the lines begin
/// with the text as it was given.
pub fn translate_number(
    solution_count: &mut usize,
    rejected_solution_count: &mut u64,
    num: &str,
    dict: &Dictionary,
    out: &mut Vec<u8>,
)
    requires
        *old(solution_count) + accepted_count(translations(dict@, num@)) <= usize::MAX,
        *old(rejected_solution_count) + rejected_count(translations(dict@, num@)) <= u64::MAX,
    ensures
        final(out)@ == old(out)@ + output(num@, translations(dict@, num@)),
        *final(solution_count) == *old(solution_count) + accepted_count(
            translations(dict@, num@),
        ),
        *final(rejected_solution_count) == *old(rejected_solution_count) + rejected_count(
            translations(dict@, num@),
        ),
{
    let digits = number_digits(num);
    let mut words: Vec<WordOrDigit> = Vec::new();
    assert(words.deep_view() =~= Seq::<Segment>::empty());
    print_translations(
        solution_count,
        rejected_solution_count,
        num,
        digits.as_slice(),
        &mut words,
        dict,
        out,
    );
}

/// Where no stretch of the digits is the key of a word, a single digit is
/// translated as itself, which is accepted, and two digits or more are not
/// translated at all: nothing is accepted, nothing rejected, nothing
/// written.
pub proof fn lemma_no_word_anywhere(dict: Entries, digits: Seq<u8>)
    requires
        forall|from: int, to: int|
            0 <= from < to <= digits.len() ==> #[trigger] bucket_of(dict, digits.subrange(from, to)).len()
                == 0,
    ensures
        digits.len() == 1 ==> candidates(dict, digits, Seq::<Segment>::empty())
            == seq![seq![Segment::Digit((digits[0] - ZERO) as u8)]],
        digits.len() == 1 ==> accepted_count(candidates(dict, digits, Seq::<Segment>::empty())) == 1
            && rejected_count(candidates(dict, digits, Seq::<Segment>::empty())) == 0,
        digits.len() >= 2 ==> candidates(dict, digits, Seq::<Segment>::empty()) == Seq::<
            Seq<Segment>,
        >::empty(),
{
    let nothing = Seq::<Segment>::empty();
    if digits.len() >= 1 {
        let digit = Segment::Digit((digits[0] - ZERO) as u8);
        let rest = digits.skip(1);
        assert(!has_match(dict, digits)) by {
            assert forall|cut: int| 1 <= cut <= digits.len() implies #[trigger] bucket_of(
                dict,
                digits.take(cut),
            ).len() == 0 by {
                assert(digits.take(cut) =~= digits.subrange(0, cut));
            }
        }
        assert(candidates(dict, digits, nothing) == candidates(dict, rest, nothing.push(digit)));
        if digits.len() == 1 {
            assert(nothing.push(digit) =~= seq![digit]);
            assert(candidates(dict, rest, seq![digit]) == seq![seq![digit]]);
            lemma_counts_one(seq![digit]);
        } else {
            assert(!has_match(dict, rest)) by {
                assert forall|cut: int| 1 <= cut <= rest.len() implies #[trigger] bucket_of(
                    dict,
                    rest.take(cut),
                ).len() == 0 by {
                    assert(rest.take(cut) =~= digits.subrange(1, 1 + cut));
                }
            }
            assert(nothing.push(digit).last() == digit);
            assert(candidates(dict, rest, nothing.push(digit)) == Seq::<Seq<Segment>>::empty());
        }
    }
}

/// What a run over a list of number texts writes: what the translations of
/// each write, in the order of the list.
pub open spec fn run_output(dict: Entries, numbers: Seq<Seq<char>>) -> Seq<u8>
    decreases numbers.len(),
{
    if numbers.len() == 0 {
        Seq::<u8>::empty()
    } else {
        run_output(dict, numbers.drop_last()) + output(
            numbers.last(),
            translations(dict, numbers.last()),
        )
    }
}

/// How many translations a run over a list of number texts accepts.
pub open spec fn run_accepted(dict: Entries, numbers: Seq<Seq<char>>) -> nat
    decreases numbers.len(),
{
    if numbers.len() == 0 {
        0
    } else {
        run_accepted(dict, numbers.drop_last()) + accepted_count(translations(dict, numbers.last()))
    }
}

/// How many translations a run over a list of number texts rejects.
pub open spec fn run_rejected(dict: Entries, numbers: Seq<Seq<char>>) -> nat
    decreases numbers.len(),
{
    if numbers.len() == 0 {
        0
    } else {
        run_rejected(dict, numbers.drop_last()) + rejected_count(translations(dict, numbers.last()))
    }
}

/// How many complete translations a run over a list of number texts
/// reaches.
pub open spec fn run_reached(dict: Entries, numbers: Seq<Seq<char>>) -> nat
    decreases numbers.len(),
{
    if numbers.len() == 0 {
        0
    } else {
        run_reached(dict, numbers.drop_last()) + translations(dict, numbers.last()).len()
    }
}

/// At the end of a run the two counts together are the number of complete
/// translations that the search reached.
pub proof fn lemma_run_counts_cover(dict: Entries, numbers: Seq<Seq<char>>)
    ensures
        run_accepted(dict, numbers) + run_rejected(dict, numbers) == run_reached(dict, numbers),
    decreases numbers.len(),
{
    if numbers.len() > 0 {
        lemma_run_counts_cover(dict, numbers.drop_last());
        lemma_counts_cover(translations(dict, numbers.last()));
    }
}

/// A run has not counted more after its first `upto` number texts than it
/// will have counted at its end.
proof fn lemma_run_counts_so_far(dict: Entries, numbers: Seq<Seq<char>>, upto: int)
    requires
        0 <= upto <= numbers.len(),
    ensures
        run_accepted(dict, numbers.take(upto)) <= run_accepted(dict, numbers),
        run_rejected(dict, numbers.take(upto)) <= run_rejected(dict, numbers),
    decreases numbers.len() - upto,
{
    if upto == numbers.len() {
        assert(numbers.take(upto) =~= numbers);
    } else {
        lemma_run_counts_so_far(dict, numbers, upto + 1);
        assert(numbers.take(upto + 1).drop_last() =~= numbers.take(upto));
    }
}

/// Translates the number texts of a list, one after the other.
pub fn translate_numbers(
    solution_count: &mut usize,
    rejected_solution_count: &mut u64,
    numbers: &[String],
    dict: &Dictionary,
    out: &mut Vec<u8>,
)
    requires
        *old(solution_count) + run_accepted(dict@, numbers.deep_view()) <= usize::MAX,
        *old(rejected_solution_count) + run_rejected(dict@, numbers.deep_view()) <= u64::MAX,
    ensures
        final(out)@ == old(out)@ + run_output(dict@, numbers.deep_view()),
        *final(solution_count) == *old(solution_count) + run_accepted(dict@, numbers.deep_view()),
        *final(rejected_solution_count) == *old(rejected_solution_count) + run_rejected(
            dict@,
            numbers.deep_view(),
        ),
{
    let ghost all = numbers.deep_view();
    let ghost out0 = out@;
    let ghost accepted0 = *solution_count as int;
    let ghost rejected0 = *rejected_solution_count as int;
    let mut i: usize = 0;
    proof {
        assert(all.take(0) =~= Seq::<Seq<char>>::empty());
        assert(out@ =~= out0 + run_output(dict@, all.take(0)));
    }
    while i < numbers.len()
        invariant
            i <= numbers.len(),
            all == numbers.deep_view(),
            all.len() == numbers.len(),
            accepted0 + run_accepted(dict@, all) <= usize::MAX,
            rejected0 + run_rejected(dict@, all) <= u64::MAX,
            out@ == out0 + run_output(dict@, all.take(i as int)),
            *solution_count == accepted0 + run_accepted(dict@, all.take(i as int)),
            *rejected_solution_count == rejected0 + run_rejected(dict@, all.take(i as int)),
        decreases numbers.len() - i,
    {
        let num = numbers[i].as_str();
        proof {
            let next = all.take(i + 1);
            assert(next.drop_last() =~= all.take(i as int));
            assert(next.last() == num@);
            lemma_run_counts_so_far(dict@, all, i + 1);
        }
        translate_number(solution_count, rejected_solution_count, num, dict, out);
        assert(out@ =~= out0 + run_output(dict@, all.take(i + 1)));
        i += 1;
    }
    proof {
        assert(all.take(all.len() as int) =~= all);
    }
}

/// Two dictionaries of one word list translate alike: runs over the same
/// number texts write the same bytes and count the same, whatever keys the
/// two dictionaries hash with.
pub proof fn lemma_same_inputs_same_run(
    first: Dictionary,
    second: Dictionary,
    words: Seq<Seq<char>>,
    numbers: Seq<Seq<char>>,
)
    requires
        first@ == index_of(words),
        second@ == index_of(words),
    ensures
        run_output(first@, numbers) == run_output(second@, numbers),
        run_accepted(first@, numbers) == run_accepted(second@, numbers),
        run_rejected(first@, numbers) == run_rejected(second@, numbers),
{
}

} // verus!
