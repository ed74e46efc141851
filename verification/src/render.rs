//! The bytes that a run writes: kept lines, optionally behind a count, and
//! removed lines behind a marker.

use crate::key::{line_key, line_keys};
use crate::lines::{content_len, split_lines, strip_terminator, LINE_FEED};
use crate::policy::{lemma_survivors, occurrences, survives, survivors, unique_keys};
use crate::{DeduplicationMode, DeduplicationOptions, DeduplicationStats};
use vstd::prelude::*;

verus! {

/// The space byte.
pub const SPACE: u8 = 32;

/// The digit zero.
pub const DIGIT_ZERO: u8 = 48;

/// The width that a count is padded to.
pub const COUNT_WIDTH: usize = 7;

/// The number in decimal digits.
pub open spec fn decimal(n: nat) -> Seq<u8>
    decreases n,
{
    if n < 10 {
        seq![(DIGIT_ZERO + n) as u8]
    } else {
        decimal(n / 10).push((DIGIT_ZERO + n % 10) as u8)
    }
}

/// The spaces that fill a number of `digits` digits up to the count width.
pub open spec fn padding(digits: nat) -> Seq<u8> {
    Seq::new(
        if digits < COUNT_WIDTH {
            (COUNT_WIDTH - digits) as nat
        } else {
            0
        },
        |i: int| SPACE,
    )
}

/// The count as it stands before a kept line: right-aligned in seven
/// columns, then one space.
pub open spec fn count_field(n: nat) -> Seq<u8> {
    padding(decimal(n).len()) + decimal(n) + seq![SPACE]
}

/// The marker that stands before a removed line: `[REMOVED]` and a space.
pub open spec fn removal_marker() -> Seq<u8> {
    seq![91u8, 82u8, 69u8, 77u8, 79u8, 86u8, 69u8, 68u8, 93u8, 32u8]
}

/// A kept line as written: the count field where counts are asked for, the
/// content without its terminator, and one line feed.
#[verifier::opaque]
pub open spec fn kept_record(line: Seq<u8>, count: nat, with_count: bool) -> Seq<u8> {
    (if with_count {
        count_field(count)
    } else {
        Seq::empty()
    }) + strip_terminator(line) + seq![LINE_FEED]
}

/// A removed line as written: the marker, then the line as it was read.
#[verifier::opaque]
pub open spec fn removed_record(line: Seq<u8>) -> Seq<u8> {
    removal_marker() + line
}

/// The records of the kept lines at the given positions, in that order.
pub open spec fn kept_records(
    lines: Seq<Seq<u8>>,
    keys: Seq<Seq<u8>>,
    with_count: bool,
    positions: Seq<int>,
) -> Seq<u8>
    decreases positions.len(),
{
    if positions.len() == 0 {
        Seq::empty()
    } else {
        kept_records(lines, keys, with_count, positions.drop_last()) + kept_record(
            lines[positions.last()],
            occurrences(keys, keys[positions.last()]),
            with_count,
        )
    }
}

/// What the removed line at position `i` adds to the output: its record
/// where removed lines are shown, nothing where they are not or the line is
/// kept.
pub open spec fn removed_piece(
    lines: Seq<Seq<u8>>,
    keys: Seq<Seq<u8>>,
    options: DeduplicationOptions,
    i: int,
) -> Seq<u8> {
    if !survives(options.mode, keys, i) && options.show_removed {
        removed_record(lines[i])
    } else {
        Seq::empty()
    }
}

/// What the kept line at position `i` adds to the output.
pub open spec fn kept_piece(
    lines: Seq<Seq<u8>>,
    keys: Seq<Seq<u8>>,
    options: DeduplicationOptions,
    i: int,
) -> Seq<u8> {
    if survives(options.mode, keys, i) {
        kept_record(lines[i], occurrences(keys, keys[i]), options.count)
    } else {
        Seq::empty()
    }
}

/// The records of the removed lines before position `n`, in input order.
pub open spec fn removed_part(
    lines: Seq<Seq<u8>>,
    keys: Seq<Seq<u8>>,
    options: DeduplicationOptions,
    n: int,
) -> Seq<u8>
    decreases n,
{
    if n <= 0 {
        Seq::empty()
    } else {
        removed_part(lines, keys, options, n - 1) + removed_piece(lines, keys, options, n - 1)
    }
}

/// The records of all lines before position `n`, kept and removed, in input
/// order.
pub open spec fn ordered_part(
    lines: Seq<Seq<u8>>,
    keys: Seq<Seq<u8>>,
    options: DeduplicationOptions,
    n: int,
) -> Seq<u8>
    decreases n,
{
    if n <= 0 {
        Seq::empty()
    } else {
        ordered_part(lines, keys, options, n - 1) + kept_piece(lines, keys, options, n - 1)
            + removed_piece(lines, keys, options, n - 1)
    }
}

/// True when kept lines are held back to the end of the run: under
/// `KeepFirst` with counts, where a line's count is known only then.
pub open spec fn defers_kept(options: DeduplicationOptions) -> bool {
    options.mode == DeduplicationMode::KeepFirst && options.count
}

/// The whole output of a run over the lines. Records stand in input order,
/// but where kept lines are held back: there the removed lines come first.
pub open spec fn expected_output(lines: Seq<Seq<u8>>, options: DeduplicationOptions) -> Seq<u8> {
    let keys = line_keys(lines, options);
    if defers_kept(options) {
        removed_part(lines, keys, options, lines.len() as int) + kept_records(
            lines,
            keys,
            options.count,
            survivors(options.mode, keys, lines.len() as int),
        )
    } else {
        ordered_part(lines, keys, options, lines.len() as int)
    }
}

/// The options with the policy set to `mode`.
pub open spec fn under(options: DeduplicationOptions, mode: DeduplicationMode) -> DeduplicationOptions {
    DeduplicationOptions {
        mode,
        ignore_case: options.ignore_case,
        count: options.count,
        show_removed: options.show_removed,
        column: options.column,
        use_disk: options.use_disk,
    }
}

/// True when `after` and `stats` are what a run over the input leaves, given
/// the output as it was `before`: the records of the run are appended, every
/// line is counted as read and as either written or removed, and the unique
/// keys are counted.
pub open spec fn describes_run(
    input: Seq<u8>,
    options: DeduplicationOptions,
    before: Seq<u8>,
    after: Seq<u8>,
    stats: DeduplicationStats,
) -> bool {
    let lines = split_lines(input);
    let keys = line_keys(lines, options);
    let kept = survivors(options.mode, keys, lines.len() as int);
    &&& after == before + expected_output(lines, options)
    &&& stats.lines_read == lines.len()
    &&& stats.lines_written == kept.len()
    &&& stats.lines_removed == lines.len() - kept.len()
    &&& stats.unique_lines == unique_keys(options.mode, keys).len()
}

/// Without counts, a kept line is written the same whatever its count.
pub proof fn lemma_count_unused(line: Seq<u8>, count: nat, other: nat)
    ensures
        kept_record(line, count, false) == kept_record(line, other, false),
{
    reveal(kept_record);
}

/// The output in input order after one more line: the record of the line is
/// appended if it is kept, its removal record if it is removed and removed
/// lines are shown, and nothing else.
pub proof fn lemma_ordered_step(
    before: Seq<u8>,
    lines: Seq<Seq<u8>>,
    keys: Seq<Seq<u8>>,
    options: DeduplicationOptions,
    i: int,
    previous: Seq<u8>,
    next: Seq<u8>,
)
    requires
        0 <= i,
        previous == before + ordered_part(lines, keys, options, i),
        survives(options.mode, keys, i) ==> next == previous + kept_record(
            lines[i],
            occurrences(keys, keys[i]),
            options.count,
        ),
        !survives(options.mode, keys, i) && options.show_removed ==> next == previous
            + removed_record(lines[i]),
        !survives(options.mode, keys, i) && !options.show_removed ==> next == previous,
    ensures
        next == before + ordered_part(lines, keys, options, i + 1),
        before.is_prefix_of(next),
{
    let piece = kept_piece(lines, keys, options, i) + removed_piece(lines, keys, options, i);
    assert(next =~= previous + piece);
    assert(ordered_part(lines, keys, options, i + 1) =~= ordered_part(lines, keys, options, i)
        + piece);
    assert(next =~= before + ordered_part(lines, keys, options, i + 1));
    assert(next.subrange(0, before.len() as int) =~= before);
}

/// The removed lines written after one more line: its removal record is
/// appended if it is removed and removed lines are shown, and nothing else.
pub proof fn lemma_removed_step(
    before: Seq<u8>,
    lines: Seq<Seq<u8>>,
    keys: Seq<Seq<u8>>,
    options: DeduplicationOptions,
    i: int,
    previous: Seq<u8>,
    next: Seq<u8>,
)
    requires
        0 <= i,
        previous == before + removed_part(lines, keys, options, i),
        !survives(options.mode, keys, i) && options.show_removed ==> next == previous
            + removed_record(lines[i]),
        survives(options.mode, keys, i) || !options.show_removed ==> next == previous,
    ensures
        next == before + removed_part(lines, keys, options, i + 1),
        before.is_prefix_of(next),
{
    let piece = removed_piece(lines, keys, options, i);
    assert(next =~= previous + piece);
    assert(next =~= before + removed_part(lines, keys, options, i + 1));
    assert(next.subrange(0, before.len() as int) =~= before);
}

/// The kept lines written after one more of them.
pub proof fn lemma_kept_step(
    before: Seq<u8>,
    lines: Seq<Seq<u8>>,
    keys: Seq<Seq<u8>>,
    with_count: bool,
    positions: Seq<int>,
    t: int,
    previous: Seq<u8>,
    next: Seq<u8>,
)
    requires
        0 <= t < positions.len(),
        previous == before + kept_records(lines, keys, with_count, positions.take(t)),
        next == previous + kept_record(
            lines[positions[t]],
            occurrences(keys, keys[positions[t]]),
            with_count,
        ),
    ensures
        next == before + kept_records(lines, keys, with_count, positions.take(t + 1)),
        before.is_prefix_of(next),
        t + 1 == positions.len() ==> positions.take(t + 1) == positions,
{
    let grown = positions.take(t + 1);
    assert(grown.drop_last() =~= positions.take(t));
    assert(grown.last() == positions[t]);
    assert(next =~= before + kept_records(lines, keys, with_count, grown));
    assert(next.subrange(0, before.len() as int) =~= before);
    assert(t + 1 == positions.len() ==> grown =~= positions);
}

/// The kept positions after one more line, and the start of every part of
/// the output.
pub proof fn lemma_survivors_step(mode: DeduplicationMode, keys: Seq<Seq<u8>>, i: int)
    requires
        0 <= i,
    ensures
        survives(mode, keys, i) ==> survivors(mode, keys, i + 1) == survivors(mode, keys, i).push(
            i,
        ),
        !survives(mode, keys, i) ==> survivors(mode, keys, i + 1) == survivors(mode, keys, i),
        survivors(mode, keys, i).len() <= i,
{
    lemma_survivors(mode, keys, i);
}

/// Before the first line nothing is written and nothing is kept.
pub proof fn lemma_nothing_yet(
    before: Seq<u8>,
    lines: Seq<Seq<u8>>,
    keys: Seq<Seq<u8>>,
    options: DeduplicationOptions,
)
    ensures
        before == before + ordered_part(lines, keys, options, 0),
        before == before + removed_part(lines, keys, options, 0),
        before == before + kept_records(lines, keys, options.count, Seq::empty()),
        survivors(options.mode, keys, 0).len() == 0,
        before.is_prefix_of(before),
        lines.skip(0) == lines,
        line_keys(lines, options).len() == lines.len(),
{
    assert(before =~= before + Seq::<u8>::empty());
    assert(before.subrange(0, before.len() as int) =~= before);
    assert(lines.skip(0) =~= lines);
}

/// The key of line `i` is derived from its content, whatever the policy.
pub proof fn lemma_line_key(
    lines: Seq<Seq<u8>>,
    options: DeduplicationOptions,
    mode: DeduplicationMode,
    i: int,
)
    requires
        0 <= i < lines.len(),
    ensures
        line_keys(lines, under(options, mode)).len() == lines.len(),
        line_keys(lines, under(options, mode))[i] == line_key(lines[i], options),
{
}

/// Appends the bytes to the output.
pub fn append_bytes(output: &mut Vec<u8>, bytes: &[u8])
    ensures
        final(output)@ == old(output)@ + bytes@,
{
    let mut i: usize = 0;
    while i < bytes.len()
        invariant
            i <= bytes.len(),
            output@ == old(output)@ + bytes@.take(i as int),
        decreases bytes.len() - i,
    {
        output.push(bytes[i]);
        assert(bytes@.take(i + 1) =~= bytes@.take(i as int).push(bytes@[i as int]));
        i = i + 1;
    }
    assert(bytes@.take(i as int) =~= bytes@);
}

/// Appends the number in decimal digits.
pub fn append_decimal(output: &mut Vec<u8>, n: usize)
    ensures
        final(output)@ == old(output)@ + decimal(n as nat),
    decreases n,
{
    if n >= 10 {
        append_decimal(output, n / 10);
    }
    output.push(DIGIT_ZERO + (n % 10) as u8);
    assert(output@ =~= old(output)@ + decimal(n as nat));
}

/// Appends the count field of the number.
pub fn append_count_field(output: &mut Vec<u8>, n: usize)
    ensures
        final(output)@ == old(output)@ + count_field(n as nat),
{
    let mut digits: Vec<u8> = Vec::new();
    append_decimal(&mut digits, n);
    assert(digits@ =~= decimal(n as nat));
    let mut width: usize = digits.len();
    let ghost pad = padding(digits@.len());
    while width < COUNT_WIDTH
        invariant
            digits@.len() <= width,
            digits@.len() < COUNT_WIDTH ==> width <= COUNT_WIDTH,
            digits@.len() >= COUNT_WIDTH ==> width == digits@.len(),
            pad == padding(digits@.len()),
            output@ == old(output)@ + pad.take(width - digits@.len()),
        decreases COUNT_WIDTH - width,
    {
        output.push(SPACE);
        assert(pad.take(width + 1 - digits@.len()) =~= pad.take(width - digits@.len()).push(SPACE));
        width = width + 1;
    }
    assert(pad.take(width - digits@.len()) =~= pad);
    append_bytes(output, digits.as_slice());
    output.push(SPACE);
    assert(output@ =~= old(output)@ + count_field(n as nat));
}

/// Appends a kept line: its count field where counts are asked for, its
/// content, one line feed.
pub fn append_kept(output: &mut Vec<u8>, line: &[u8], count: usize, with_count: bool)
    ensures
        final(output)@ == old(output)@ + kept_record(line@, count as nat, with_count),
{
    if with_count {
        append_count_field(output, count);
    }
    let len = content_len(line);
    let content = vstd::slice::slice_subrange(line, 0, len);
    assert(content@ =~= strip_terminator(line@));
    append_bytes(output, content);
    output.push(LINE_FEED);
    reveal(kept_record);
    assert(output@ =~= old(output)@ + kept_record(line@, count as nat, with_count));
}

/// Appends a removed line behind the removal marker.
pub fn append_removed(output: &mut Vec<u8>, line: &[u8])
    ensures
        final(output)@ == old(output)@ + removed_record(line@),
{
    output.push(91u8);
    output.push(82u8);
    output.push(69u8);
    output.push(77u8);
    output.push(79u8);
    output.push(86u8);
    output.push(69u8);
    output.push(68u8);
    output.push(93u8);
    output.push(32u8);
    assert(output@ =~= old(output)@ + removal_marker());
    append_bytes(output, line);
    reveal(removed_record);
    assert(output@ =~= old(output)@ + removed_record(line@));
}

} // verus!
