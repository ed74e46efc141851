//! Splitting a byte stream into lines.
//!
//! A line is a maximal run of bytes that ends with a line feed, or the
//! unterminated rest of the stream. Lines keep their terminator, so that the
//! lines of a stream, put end to end, give the stream back.

use vstd::prelude::*;

verus! {

/// The line feed byte.
pub const LINE_FEED: u8 = 10;

/// The carriage return byte.
pub const CARRIAGE_RETURN: u8 = 13;

/// The position just behind the line that starts at `start`: behind the first
/// line feed at or after `start`, or the end of the input where there is none.
pub open spec fn line_end(input: Seq<u8>, start: int) -> int
    decreases input.len() - start,
{
    if start < 0 || start >= input.len() {
        input.len() as int
    } else if input[start] == LINE_FEED {
        start + 1
    } else {
        line_end(input, start + 1)
    }
}

/// The lines of the input from position `start` on.
pub open spec fn lines_from(input: Seq<u8>, start: int) -> Seq<Seq<u8>>
    decreases input.len() - start,
{
    if start < 0 || start >= input.len() || line_end(input, start) <= start || line_end(
        input,
        start,
    ) > input.len() {
        Seq::empty()
    } else {
        seq![input.subrange(start, line_end(input, start))] + lines_from(
            input,
            line_end(input, start),
        )
    }
}

/// The lines of the input, each with its terminator.
pub open spec fn split_lines(input: Seq<u8>) -> Seq<Seq<u8>> {
    lines_from(input, 0)
}

/// The line without its terminator: a final line feed is dropped, together
/// with a carriage return that stands directly before it.
pub open spec fn strip_terminator(line: Seq<u8>) -> Seq<u8> {
    if line.len() >= 1 && line.last() == LINE_FEED {
        if line.len() >= 2 && line[line.len() - 2] == CARRIAGE_RETURN {
            line.take(line.len() - 2)
        } else {
            line.take(line.len() - 1)
        }
    } else {
        line
    }
}

/// True when the bytes hold no line feed.
pub open spec fn no_line_feed(bytes: Seq<u8>) -> bool {
    forall|i: int| 0 <= i < bytes.len() ==> bytes[i] != LINE_FEED
}

/// True when the bytes are one line: not empty, and with no line feed but
/// possibly at the very end.
pub open spec fn is_line(bytes: Seq<u8>) -> bool {
    bytes.len() > 0 && no_line_feed(bytes.drop_last())
}

/// A line ends behind its start, inside the input, and holds no line feed
/// before its last byte.
pub proof fn lemma_line_end_bounds(input: Seq<u8>, start: int)
    requires
        0 <= start < input.len(),
    ensures
        start < line_end(input, start) <= input.len(),
        forall|i: int| start <= i < line_end(input, start) - 1 ==> input[i] != LINE_FEED,
        line_end(input, start) < input.len() ==> input[line_end(input, start) - 1] == LINE_FEED,
    decreases input.len() - start,
{
    if input[start] != LINE_FEED {
        if start + 1 < input.len() {
            lemma_line_end_bounds(input, start + 1);
        } else {
            assert(line_end(input, start + 1) == input.len());
        }
        assert(line_end(input, start) == line_end(input, start + 1));
    }
}

/// Unfolds the lines from a position inside the input: the line that starts
/// there, then the lines behind it.
pub proof fn lemma_lines_from_step(input: Seq<u8>, start: int)
    requires
        0 <= start < input.len(),
    ensures
        lines_from(input, start).len() > 0,
        lines_from(input, start)[0] == input.subrange(start, line_end(input, start)),
        lines_from(input, start).skip(1) == lines_from(input, line_end(input, start)),
        is_line(lines_from(input, start)[0]),
{
    lemma_line_end_bounds(input, start);
    let end = line_end(input, start);
    let rest = lines_from(input, end);
    let first = input.subrange(start, end);
    assert(lines_from(input, start) == seq![first] + rest);
    assert((seq![first] + rest).skip(1) =~= rest);
    assert(no_line_feed(first.drop_last()));
}

/// A line ends where the first line feed after its start stands, or where
/// the input ends without one.
pub proof fn lemma_line_end_is(input: Seq<u8>, start: int, end: int)
    requires
        0 <= start < end <= input.len(),
        forall|k: int| start <= k < end - 1 ==> input[k] != LINE_FEED,
        input[end - 1] == LINE_FEED || end == input.len(),
    ensures
        line_end(input, start) == end,
    decreases end - start,
{
    if start + 1 < end {
        lemma_line_end_is(input, start + 1, end);
    } else if input[start] != LINE_FEED {
        assert(line_end(input, start + 1) == input.len());
    }
}

/// True when the bytes hold whole lines only: they are empty or end with a
/// line feed.
pub open spec fn ends_lines(bytes: Seq<u8>) -> bool {
    bytes.len() == 0 || bytes.last() == LINE_FEED
}

/// One more line behind whole lines is one more line of the input.
pub proof fn lemma_lines_from_append(whole: Seq<u8>, line: Seq<u8>, start: int)
    requires
        ends_lines(whole),
        is_line(line),
        0 <= start <= whole.len(),
    ensures
        lines_from(whole + line, start) == lines_from(whole, start).push(line),
    decreases whole.len() - start,
{
    let both = whole + line;
    if start == whole.len() {
        assert forall|k: int| start <= k < both.len() - 1 implies both[k] != LINE_FEED by {
            assert(both[k] == line.drop_last()[k - start]);
        }
        lemma_line_end_is(both, start, both.len() as int);
        assert(both.subrange(start, both.len() as int) =~= line);
        assert(lines_from(both, both.len() as int) =~= Seq::empty());
        assert(lines_from(whole, start) =~= Seq::empty());
        assert(lines_from(both, start) =~= seq![line]);
        assert(Seq::<Seq<u8>>::empty().push(line) =~= seq![line]);
    } else {
        lemma_line_end_bounds(whole, start);
        let end = line_end(whole, start);
        assert forall|k: int| start <= k < end - 1 implies both[k] != LINE_FEED by {
            assert(both[k] == whole[k]);
        }
        assert(both[end - 1] == whole[end - 1]);
        lemma_line_end_is(both, start, end);
        assert(both.subrange(start, end) =~= whole.subrange(start, end));
        lemma_lines_from_append(whole, line, end);
        assert(lines_from(both, start) =~= lines_from(whole, start).push(line));
    }
}

/// Every line of an input is a line: not empty, with no line feed before its
/// last byte.
pub proof fn lemma_lines_are_lines(input: Seq<u8>, start: int)
    requires
        0 <= start,
    ensures
        forall|i: int|
            0 <= i < lines_from(input, start).len() ==> is_line(#[trigger] lines_from(input, start)[i]),
    decreases input.len() - start,
{
    if start < input.len() {
        lemma_lines_from_step(input, start);
        lemma_line_end_bounds(input, start);
        let end = line_end(input, start);
        lemma_lines_are_lines(input, end);
        let all = lines_from(input, start);
        let rest = lines_from(input, end);
        assert forall|i: int| 0 <= i < all.len() implies is_line(#[trigger] all[i]) by {
            if i > 0 {
                assert(all.skip(1)[i - 1] == all[i]);
                assert(is_line(rest[i - 1]));
            }
        }
    }
}

/// Steps from line `i`, which starts at `pos`, to the next one.
pub proof fn lemma_next_line(input: Seq<u8>, pos: int, i: int)
    requires
        0 <= pos < input.len(),
        0 <= i <= split_lines(input).len(),
        lines_from(input, pos) == split_lines(input).skip(i),
    ensures
        i < split_lines(input).len(),
        split_lines(input)[i] == input.subrange(pos, line_end(input, pos)),
        lines_from(input, line_end(input, pos)) == split_lines(input).skip(i + 1),
{
    lemma_lines_from_step(input, pos);
    let lines = split_lines(input);
    assert(lines.skip(i)[0] == lines[i]);
    assert(lines.skip(i).skip(1) =~= lines.skip(i + 1));
}

/// At the end of the input every line has been passed.
pub proof fn lemma_no_more_lines(input: Seq<u8>, pos: int, i: int)
    requires
        pos >= input.len(),
        0 <= i <= split_lines(input).len(),
        lines_from(input, pos) == split_lines(input).skip(i),
    ensures
        i == split_lines(input).len(),
{
    assert(split_lines(input).skip(i).len() == 0);
}

/// Finds the end of the line that starts at `start`.
pub fn find_line_end(input: &[u8], start: usize) -> (end: usize)
    requires
        start < input.len(),
    ensures
        end as int == line_end(input@, start as int),
        start < end <= input.len(),
{
    let mut pos: usize = start;
    while pos < input.len() && input[pos] != LINE_FEED
        invariant
            start <= pos <= input.len(),
            line_end(input@, start as int) == line_end(input@, pos as int),
        decreases input.len() - pos,
    {
        pos = pos + 1;
    }
    if pos < input.len() {
        pos + 1
    } else {
        pos
    }
}

/// The length of the line without its terminator.
pub fn content_len(line: &[u8]) -> (len: usize)
    ensures
        len <= line.len(),
        line@.take(len as int) == strip_terminator(line@),
{
    let n: usize = line.len();
    if n >= 1 && line[n - 1] == LINE_FEED {
        if n >= 2 && line[n - 2] == CARRIAGE_RETURN {
            n - 2
        } else {
            n - 1
        }
    } else {
        assert(line@.take(n as int) =~= line@);
        n
    }
}

} // verus!
