//! What holds of every run, whatever the input.

use crate::key::line_keys;
use crate::lines::{
    ends_lines, is_line, lemma_lines_are_lines, lemma_lines_from_append, split_lines,
    strip_terminator, CARRIAGE_RETURN, LINE_FEED,
};
use crate::policy::{
    is_first, lemma_first_position, lemma_last_position, lemma_one_survivor_per_key,
    lemma_survivors, lemma_two_positions, occurrences, survives, survivors, unique_keys,
};
use crate::render::{describes_run, expected_output, kept_piece, kept_record, ordered_part};
use crate::{DeduplicationMode, DeduplicationOptions, DeduplicationStats};
use vstd::prelude::*;

verus! {

/// Every line that a run reads is either written or removed: the two
/// counters add up to the number of lines read.
pub proof fn lemma_counters_add_up(
    input: Seq<u8>,
    options: DeduplicationOptions,
    before: Seq<u8>,
    after: Seq<u8>,
    stats: DeduplicationStats,
)
    requires
        describes_run(input, options, before, after, stats),
    ensures
        stats.lines_written + stats.lines_removed == stats.lines_read,
{
}

/// A run over an empty input writes nothing and leaves every counter at
/// zero.
pub proof fn lemma_empty_input(
    options: DeduplicationOptions,
    before: Seq<u8>,
    after: Seq<u8>,
    stats: DeduplicationStats,
)
    requires
        describes_run(Seq::empty(), options, before, after, stats),
    ensures
        after == before,
        stats.lines_read == 0,
        stats.lines_written == 0,
        stats.lines_removed == 0,
        stats.unique_lines == 0,
{
    let lines = split_lines(Seq::<u8>::empty());
    let keys = line_keys(lines, options);
    assert(lines =~= Seq::empty());
    assert(keys =~= Seq::empty());
    assert(keys.to_set() =~= Set::empty());
    assert(unique_keys(options.mode, keys) =~= Set::empty());
    assert(expected_output(lines, options) =~= Seq::empty());
    assert(before + Seq::<u8>::empty() =~= before);
}

/// Under `RemoveAll` a kept line is the only line of its key: its key occurs
/// once, so no line with a key that occurs more often is kept.
pub proof fn lemma_remove_all_keeps_single_keys(keys: Seq<Seq<u8>>, i: int, j: int)
    requires
        0 <= i < keys.len(),
        0 <= j < keys.len(),
        survives(DeduplicationMode::RemoveAll, keys, i),
        keys[j] == keys[i],
    ensures
        i == j,
        occurrences(keys, keys[i]) == 1,
{
    if i < j {
        lemma_two_positions(keys, i, j);
    } else if j < i {
        lemma_two_positions(keys, j, i);
    }
}

/// Under `KeepFirst` and `KeepLast` exactly one line of each key that occurs
/// is kept: there is a kept line with the key, and any two kept lines with
/// the key are the same line.
pub proof fn lemma_one_line_per_key(mode: DeduplicationMode, keys: Seq<Seq<u8>>, key: Seq<u8>)
    requires
        mode != DeduplicationMode::RemoveAll,
        keys.to_set().contains(key),
    ensures
        exists|i: int|
            0 <= i < keys.len() && keys[i] == key && survives(mode, keys, i) && survivors(
                mode,
                keys,
                keys.len() as int,
            ).contains(i),
        forall|i: int, j: int|
            0 <= i < keys.len() && 0 <= j < keys.len() && keys[i] == key && keys[j] == key
                && survives(mode, keys, i) && survives(mode, keys, j) ==> i == j,
{
    let j = choose|j: int| 0 <= j < keys.len() && keys[j] == key;
    lemma_survivors(mode, keys, keys.len() as int);
    let kept = survivors(mode, keys, keys.len() as int);
    match mode {
        DeduplicationMode::KeepFirst => {
            let i = lemma_first_position(keys, j);
            assert(survives(mode, keys, i));
            assert(kept.contains(i));
        },
        _ => {
            let i = lemma_last_position(keys, j);
            assert(survives(mode, keys, i));
            assert(kept.contains(i));
        },
    }
    assert forall|a: int, b: int|
        0 <= a < keys.len() && 0 <= b < keys.len() && keys[a] == key && keys[b] == key && survives(
            mode,
            keys,
            a,
        ) && survives(mode, keys, b) implies a == b by {
        lemma_one_survivor_per_key(mode, keys, a, b);
    }
}

/// The records put end to end.
pub open spec fn joined(records: Seq<Seq<u8>>) -> Seq<u8>
    decreases records.len(),
{
    if records.len() == 0 {
        Seq::empty()
    } else {
        joined(records.drop_last()) + records.last()
    }
}

/// The kept lines before position `n` as a run without counts writes them:
/// each content, then a line feed.
pub open spec fn kept_lines(
    lines: Seq<Seq<u8>>,
    keys: Seq<Seq<u8>>,
    mode: DeduplicationMode,
    n: int,
) -> Seq<Seq<u8>>
    decreases n,
{
    if n <= 0 {
        Seq::empty()
    } else if survives(mode, keys, n - 1) {
        kept_lines(lines, keys, mode, n - 1).push(strip_terminator(lines[n - 1]).push(LINE_FEED))
    } else {
        kept_lines(lines, keys, mode, n - 1)
    }
}

/// True when the line is written back as it is: it ends with a line feed,
/// with no carriage return before it.
pub open spec fn is_plain_line(line: Seq<u8>) -> bool {
    strip_terminator(line).push(LINE_FEED) == line
}

/// The content of a line holds no line feed.
pub proof fn lemma_content_is_one_line(line: Seq<u8>)
    requires
        is_line(line),
    ensures
        is_line(strip_terminator(line).push(LINE_FEED)),
        strip_terminator(line).push(LINE_FEED).last() == LINE_FEED,
{
    let content = strip_terminator(line);
    let written = content.push(LINE_FEED);
    assert(written.drop_last() =~= content);
    assert forall|k: int| 0 <= k < content.len() implies content[k] != LINE_FEED by {
        if line.last() == LINE_FEED {
            assert(line.drop_last()[k] == line[k]);
        } else {
            if k < line.len() - 1 {
                assert(line.drop_last()[k] == line[k]);
            }
        }
    }
}

/// Without counts and without removed lines, the output is the kept lines
/// put end to end.
pub proof fn lemma_plain_output(
    lines: Seq<Seq<u8>>,
    keys: Seq<Seq<u8>>,
    options: DeduplicationOptions,
    n: int,
)
    requires
        !options.count,
        !options.show_removed,
    ensures
        ordered_part(lines, keys, options, n) == joined(kept_lines(lines, keys, options.mode, n)),
    decreases n,
{
    if n > 0 {
        lemma_plain_output(lines, keys, options, n - 1);
        reveal(kept_record);
        let before = kept_lines(lines, keys, options.mode, n - 1);
        let written = strip_terminator(lines[n - 1]).push(LINE_FEED);
        if survives(options.mode, keys, n - 1) {
            assert(before.push(written).drop_last() =~= before);
            assert(kept_piece(lines, keys, options, n - 1) =~= written);
            assert(ordered_part(lines, keys, options, n) =~= joined(before) + written);
        } else {
            assert(ordered_part(lines, keys, options, n) =~= joined(before));
        }
    }
}

/// The kept lines stand one for each kept position, in order, and each is
/// one line that ends with a line feed.
pub proof fn lemma_kept_lines(
    lines: Seq<Seq<u8>>,
    keys: Seq<Seq<u8>>,
    mode: DeduplicationMode,
    n: int,
)
    requires
        0 <= n <= lines.len(),
        forall|i: int| 0 <= i < lines.len() ==> is_line(#[trigger] lines[i]),
    ensures
        kept_lines(lines, keys, mode, n).len() == survivors(mode, keys, n).len(),
        forall|t: int|
            0 <= t < survivors(mode, keys, n).len() ==> #[trigger] kept_lines(lines, keys, mode, n)[t]
                == strip_terminator(lines[survivors(mode, keys, n)[t]]).push(LINE_FEED),
        forall|t: int|
            0 <= t < kept_lines(lines, keys, mode, n).len() ==> is_line(
                #[trigger] kept_lines(lines, keys, mode, n)[t],
            ) && kept_lines(lines, keys, mode, n)[t].last() == LINE_FEED,
    decreases n,
{
    if n > 0 {
        lemma_kept_lines(lines, keys, mode, n - 1);
        lemma_survivors(mode, keys, n - 1);
        lemma_content_is_one_line(lines[n - 1]);
    }
}

/// Lines that end with a line feed, put end to end, split into themselves.
pub proof fn lemma_split_joined(records: Seq<Seq<u8>>)
    requires
        forall|t: int|
            0 <= t < records.len() ==> is_line(#[trigger] records[t]) && records[t].last()
                == LINE_FEED,
    ensures
        split_lines(joined(records)) == records,
        ends_lines(joined(records)),
    decreases records.len(),
{
    if records.len() == 0 {
        assert(split_lines(joined(records)) =~= records);
    } else {
        let front = records.drop_last();
        lemma_split_joined(front);
        lemma_lines_from_append(joined(front), records.last(), 0);
        assert(front.push(records.last()) =~= records);
    }
}

/// A run that keeps the first line of each key writes lines that are plain
/// and have keys of their own back as they are.
pub proof fn lemma_distinct_plain_lines_stay(
    lines: Seq<Seq<u8>>,
    options: DeduplicationOptions,
    n: int,
)
    requires
        options.mode == DeduplicationMode::KeepFirst,
        !options.count,
        !options.show_removed,
        0 <= n <= lines.len(),
        forall|t: int| 0 <= t < lines.len() ==> is_plain_line(#[trigger] lines[t]),
        forall|s: int, t: int|
            0 <= s < t < lines.len() ==> line_keys(lines, options)[s] != line_keys(
                lines,
                options,
            )[t],
    ensures
        ordered_part(lines, line_keys(lines, options), options, n) == joined(lines.take(n)),
    decreases n,
{
    let keys = line_keys(lines, options);
    if n == 0 {
        assert(lines.take(0) =~= Seq::<Seq<u8>>::empty());
    } else {
        lemma_distinct_plain_lines_stay(lines, options, n - 1);
        reveal(kept_record);
        assert(is_first(keys, n - 1));
        assert(is_plain_line(lines[n - 1]));
        assert(kept_piece(lines, keys, options, n - 1) =~= lines[n - 1]);
        assert(lines.take(n).drop_last() =~= lines.take(n - 1));
        assert(lines.take(n).last() == lines[n - 1]);
        assert(ordered_part(lines, keys, options, n) =~= joined(lines.take(n - 1)) + lines[n - 1]);
    }
}

/// True when the content ends with a carriage return.
pub open spec fn ends_in_carriage_return(content: Seq<u8>) -> bool {
    content.len() > 0 && content.last() == CARRIAGE_RETURN
}

/// Keeping the first line of each key is idempotent: a second run over the
/// output of a first writes that output again, unchanged.
///
/// This is stated for runs without counts and without removed lines, whose
/// output holds the kept lines alone, and for inputs in which no kept line
/// has a content that ends with a carriage return: such a content is written
/// before a line feed, and the second run would take the two for the line's
/// terminator.
pub proof fn lemma_keep_first_is_idempotent(input: Seq<u8>, options: DeduplicationOptions)
    requires
        options.mode == DeduplicationMode::KeepFirst,
        !options.count,
        !options.show_removed,
        forall|i: int|
            0 <= i < split_lines(input).len() && survives(
                options.mode,
                line_keys(split_lines(input), options),
                i,
            ) ==> !ends_in_carriage_return(strip_terminator(#[trigger] split_lines(input)[i])),
    ensures
        expected_output(split_lines(expected_output(split_lines(input), options)), options)
            == expected_output(split_lines(input), options),
{
    let lines = split_lines(input);
    let keys = line_keys(lines, options);
    let n = lines.len() as int;
    let kept = survivors(options.mode, keys, n);
    let written = kept_lines(lines, keys, options.mode, n);
    let output = expected_output(lines, options);
    lemma_lines_are_lines(input, 0);
    lemma_plain_output(lines, keys, options, n);
    lemma_kept_lines(lines, keys, options.mode, n);
    lemma_survivors(options.mode, keys, n);
    lemma_split_joined(written);
    assert(output == joined(written));
    assert(split_lines(output) == written);
    let again = line_keys(written, options);
    assert forall|t: int| 0 <= t < written.len() implies is_plain_line(#[trigger] written[t])
        && again[t] == keys[kept[t]] by {
        let content = strip_terminator(lines[kept[t]]);
        assert(written[t] == content.push(LINE_FEED));
        assert(!ends_in_carriage_return(content));
        assert(content.push(LINE_FEED).take(content.len() as int) =~= content);
        assert(strip_terminator(written[t]) == content);
    }
    assert forall|s: int, t: int| 0 <= s < t < written.len() implies again[s] != again[t] by {
        assert(kept[s] < kept[t]);
        assert(is_first(keys, kept[t]));
    }
    lemma_distinct_plain_lines_stay(written, options, written.len() as int);
    assert(written.take(written.len() as int) =~= written);
}

} // verus!
