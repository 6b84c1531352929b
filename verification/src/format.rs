//! The formatter: the line of bytes that a translation is written as.

use vstd::prelude::*;
use vstd::utf8::encode_utf8;
use crate::filter::{accepts, should_print};
use crate::segment::{Segment, WordOrDigit};

verus! {

/// The ASCII code of `:`.
pub const COLON: u8 = 58;

/// The ASCII code of the space.
pub const SPACE: u8 = 32;

/// The ASCII code of the line feed.
pub const NEWLINE: u8 = 10;

/// The texts of the segments in order, each followed by one space.
pub open spec fn spaced(stack: Seq<Segment>) -> Seq<u8>
    decreases stack.len(),
{
    if stack.len() == 0 {
        Seq::<u8>::empty()
    } else {
        spaced(stack.drop_last()) + stack.last().text() + seq![SPACE]
    }
}

/// What a translation of the number text `num` is written as. The number
/// text comes first, as it was given, then a colon. After an empty
/// translation nothing follows the colon. Otherwise a space follows, then
/// the segments with one space between neighbours, then a line feed.
pub open spec fn rendered(num: Seq<char>, stack: Seq<Segment>) -> Seq<u8> {
    if stack.len() == 0 {
        encode_utf8(num) + seq![COLON]
    } else {
        encode_utf8(num) + seq![COLON, SPACE] + spaced(stack.drop_last()) + stack.last().text()
            + seq![NEWLINE]
    }
}

/// What reaches the output for a complete translation: its rendering if it
/// is accepted; the bare number text and colon if it is empty, though an
/// empty translation is not accepted; nothing otherwise.
pub open spec fn printed(num: Seq<char>, stack: Seq<Segment>) -> Seq<u8> {
    if accepts(stack) || stack.len() == 0 {
        rendered(num, stack)
    } else {
        Seq::<u8>::empty()
    }
}

/// Appends the rendering of a translation to `out`, piece by piece.
pub fn render(num: &str, words: &[WordOrDigit], out: &mut Vec<u8>)
    ensures
        final(out)@ == old(out)@ + rendered(num@, words.deep_view()),
{
    let ghost stack = words.deep_view();
    let ghost before = out@;
    out.extend_from_slice(num.as_bytes());
    out.push(COLON);
    if words.len() == 0 {
        assert(out@ =~= before + rendered(num@, stack));
        return ;
    }
    out.push(SPACE);
    let ghost head = before + encode_utf8(num@) + seq![COLON, SPACE];
    assert(out@ =~= head);
    let last: usize = words.len() - 1;
    let mut i: usize = 0;
    assert(stack.take(0) =~= Seq::<Segment>::empty());
    while i < last
        invariant
            i <= last,
            last + 1 == words.len(),
            stack == words.deep_view(),
            stack.len() == words.len(),
            out@ == head + spaced(stack.take(i as int)),
        decreases last - i,
    {
        words[i].write_to(out);
        out.push(SPACE);
        proof {
            let next = stack.take(i + 1);
            assert(next.drop_last() =~= stack.take(i as int));
            assert(next.last() == stack[i as int]);
            assert(out@ =~= head + spaced(next));
        }
        i += 1;
    }
    words[last].write_to(out);
    out.push(NEWLINE);
    proof {
        assert(stack.drop_last() =~= stack.take(last as int));
        assert(out@ =~= before + rendered(num@, stack));
    }
}

/// Writes a complete translation if it is to be written, and tells whether
/// it counts as a solution. An accepted translation is rendered and counts.
/// The empty translation does not count, and yet its rendering, the number
/// text and a colon, is written. Any other translation leaves `out` as it
/// was.
pub fn print_solution(num: &str, words: &[WordOrDigit], out: &mut Vec<u8>) -> (accepted: bool)
    ensures
        accepted == accepts(words.deep_view()),
        final(out)@ == old(out)@ + printed(num@, words.deep_view()),
{
    let accepted = should_print(words);
    if accepted || words.len() == 0 {
        render(num, words, out);
    } else {
        assert(out@ =~= out@ + Seq::<u8>::empty());
    }
    accepted
}

} // verus!
