//! The three policies with the table of keys held in memory.

use crate::key::{line_keys, make_key};
use crate::lines::{find_line_end, lemma_next_line, lemma_no_more_lines, lines_from, split_lines};
use crate::policy::{
    is_last, lemma_first_by_count, lemma_kept_count_is_unique_count, lemma_occurrences_step,
    lemma_occurrences_zero, lemma_seen_keys, lemma_survivors, occurrences, survivors,
};
use crate::render::{
    append_kept, append_removed, describes_run, kept_records, lemma_count_unused, lemma_kept_step,
    lemma_line_key, lemma_nothing_yet, lemma_ordered_step, lemma_removed_step,
    lemma_survivors_step, ordered_part, removed_part, under,
};
use crate::table::{table_entries, table_get, table_insert, table_len, table_new};
use crate::{DeduplicationMode, DeduplicationOptions, DeduplicationStats};
use vstd::prelude::*;
use vstd::slice::{slice_subrange, slice_to_vec};

verus! {

/// True when the table holds, for each key among the first `i`, the number
/// of times it occurs there, and holds no other key.
#[verifier::opaque]
pub open spec fn counts_prefix(entries: Map<Seq<u8>, usize>, keys: Seq<Seq<u8>>, i: int) -> bool {
    &&& entries.dom() =~= keys.take(i).to_set()
    &&& forall|key: Seq<u8>| #[trigger]
        entries.contains_key(key) ==> entries[key] == occurrences(keys.take(i), key)
}

/// The table of counts after one more line has been counted.
pub proof fn lemma_counts_step(
    entries: Map<Seq<u8>, usize>,
    keys: Seq<Seq<u8>>,
    i: int,
    count: usize,
)
    requires
        0 <= i < keys.len(),
        counts_prefix(entries, keys, i),
        count == occurrences(keys.take(i), keys[i]) + 1,
    ensures
        counts_prefix(entries.insert(keys[i], count), keys, i + 1),
{
    reveal(counts_prefix);
    let next = entries.insert(keys[i], count);
    lemma_occurrences_step(keys, i, keys[i]);
    assert(next.dom() =~= keys.take(i + 1).to_set());
    assert forall|key: Seq<u8>| #[trigger] next.contains_key(key) implies next[key] == occurrences(
        keys.take(i + 1),
        key,
    ) by {
        lemma_occurrences_step(keys, i, key);
    }
}

/// A key is in the table of counts exactly when it occurs among the lines
/// counted so far.
pub proof fn lemma_counts_lookup(
    entries: Map<Seq<u8>, usize>,
    keys: Seq<Seq<u8>>,
    i: int,
    key: Seq<u8>,
)
    requires
        0 <= i <= keys.len(),
        counts_prefix(entries, keys, i),
    ensures
        entries.contains_key(key) <==> occurrences(keys.take(i), key) > 0,
        entries.contains_key(key) ==> entries[key] == occurrences(keys.take(i), key),
        occurrences(keys.take(i), key) <= i,
        i == keys.len() ==> keys.take(i) == keys,
{
    reveal(counts_prefix);
    lemma_seen_keys(keys, i, key);
}

/// A table without keys is the table of counts of no lines, and the table
/// of their last positions.
pub proof fn lemma_empty_table(entries: Map<Seq<u8>, usize>, keys: Seq<Seq<u8>>)
    requires
        forall|key: Seq<u8>| !entries.contains_key(key),
    ensures
        counts_prefix(entries, keys, 0),
        last_prefix(entries, keys, 0),
{
    reveal(counts_prefix);
    reveal(last_prefix);
    assert(keys.take(0).to_set() =~= Set::empty());
    assert(entries.dom() =~= Set::empty());
}

/// With every line counted, the table holds as many keys as the lines have.
pub proof fn lemma_counts_size(entries: Map<Seq<u8>, usize>, keys: Seq<Seq<u8>>)
    requires
        counts_prefix(entries, keys, keys.len() as int),
    ensures
        keys.to_set().finite(),
        entries.dom().len() == keys.to_set().len(),
{
    reveal(counts_prefix);
    assert(keys.take(keys.len() as int) =~= keys);
    vstd::seq_lib::seq_to_set_is_finite(keys);
}

/// With every line recorded, the table holds as many keys as the lines have.
pub proof fn lemma_last_size(entries: Map<Seq<u8>, usize>, keys: Seq<Seq<u8>>)
    requires
        last_prefix(entries, keys, keys.len() as int),
    ensures
        keys.to_set().finite(),
        entries.dom().len() == keys.to_set().len(),
{
    reveal(last_prefix);
    assert(keys.take(keys.len() as int) =~= keys);
    vstd::seq_lib::seq_to_set_is_finite(keys);
}

/// True when the table holds, for each key among the first `i`, the last
/// position before `i` that holds it, and holds no other key.
#[verifier::opaque]
pub open spec fn last_prefix(entries: Map<Seq<u8>, usize>, keys: Seq<Seq<u8>>, i: int) -> bool {
    &&& entries.dom() =~= keys.take(i).to_set()
    &&& forall|key: Seq<u8>| #[trigger]
        entries.contains_key(key) ==> {
            &&& 0 <= entries[key] < i
            &&& keys[entries[key] as int] == key
            &&& forall|j: int| entries[key] < j < i ==> #[trigger] keys[j] != key
        }
}

/// The table of last positions after one more line has been recorded.
pub proof fn lemma_last_step(entries: Map<Seq<u8>, usize>, keys: Seq<Seq<u8>>, i: int)
    requires
        0 <= i < keys.len(),
        i <= usize::MAX,
        last_prefix(entries, keys, i),
    ensures
        last_prefix(entries.insert(keys[i], i as usize), keys, i + 1),
{
    reveal(last_prefix);
    let next = entries.insert(keys[i], i as usize);
    lemma_occurrences_step(keys, i, keys[i]);
    assert(next.dom() =~= keys.take(i + 1).to_set());
}

/// With every line recorded, a line is the last of its key exactly when the
/// table holds its position under its key.
pub proof fn lemma_last_lookup(entries: Map<Seq<u8>, usize>, keys: Seq<Seq<u8>>, i: int)
    requires
        0 <= i < keys.len(),
        last_prefix(entries, keys, keys.len() as int),
    ensures
        entries.contains_key(keys[i]),
        is_last(keys, i) <==> entries[keys[i]] == i,
{
    reveal(last_prefix);
    assert(keys.take(keys.len() as int) =~= keys);
    assert(keys.to_set().contains(keys[i]));
    let held = entries[keys[i]] as int;
    if is_last(keys, i) {
        if held < i {
            assert(keys[i] != keys[i]);
        } else if held > i {
            assert(keys[held] != keys[i]);
        }
    }
}

/// Keeps the first line of each key, in one pass. Without counts each line is
/// written as it is met; with counts the kept lines are held back until the
/// end, when the number of lines that share a key is known.
pub fn deduplicate_keep_first(
    input: &[u8],
    output: &mut Vec<u8>,
    options: &DeduplicationOptions,
) -> (stats: DeduplicationStats)
    ensures
        describes_run(
            input@,
            under(*options, DeduplicationMode::KeepFirst),
            old(output)@,
            final(output)@,
            stats,
        ),
{
    let ghost opts = under(*options, DeduplicationMode::KeepFirst);
    let ghost lines = split_lines(input@);
    let ghost keys = line_keys(lines, opts);
    let mut stats = DeduplicationStats::default();
    let mut seen = table_new();
    let mut held: Vec<Vec<u8>> = Vec::new();
    let mut pos: usize = 0;
    proof {
        lemma_nothing_yet(old(output)@, lines, keys, opts);
        lemma_empty_table(table_entries(seen), keys);
    }
    while pos < input.len()
        invariant
            pos <= input.len(),
            opts == under(*options, DeduplicationMode::KeepFirst),
            lines == split_lines(input@),
            keys == line_keys(lines, opts),
            keys.len() == lines.len(),
            stats.lines_read <= pos,
            stats.lines_read <= lines.len(),
            lines_from(input@, pos as int) == lines.skip(stats.lines_read as int),
            counts_prefix(table_entries(seen), keys, stats.lines_read as int),
            stats.lines_written == survivors(opts.mode, keys, stats.lines_read as int).len(),
            stats.lines_written + stats.lines_removed == stats.lines_read,
            stats.unique_lines == 0,
            !options.count ==> output@ == old(output)@ + ordered_part(
                lines,
                keys,
                opts,
                stats.lines_read as int,
            ),
            options.count ==> output@ == old(output)@ + removed_part(
                lines,
                keys,
                opts,
                stats.lines_read as int,
            ),
            options.count ==> held@.len() == stats.lines_written,
            options.count ==> forall|t: int|
                0 <= t < held@.len() ==> (#[trigger] held@[t])@ == lines[survivors(
                    opts.mode,
                    keys,
                    stats.lines_read as int,
                )[t]],
        decreases input.len() - pos,
    {
        let ghost i = stats.lines_read as int;
        let ghost previous = output@;
        let end = find_line_end(input, pos);
        let line = slice_subrange(input, pos, end);
        proof {
            lemma_next_line(input@, pos as int, i);
            lemma_line_key(lines, *options, DeduplicationMode::KeepFirst, i);
            lemma_counts_lookup(table_entries(seen), keys, i, keys[i]);
            lemma_first_by_count(keys, i);
            lemma_survivors_step(opts.mode, keys, i);
        }
        let key = make_key(line, options).unwrap();
        let before = match table_get(&seen, key.as_slice()) {
            Some(count) => count,
            None => 0,
        };
        proof {
            lemma_counts_step(table_entries(seen), keys, i, (before + 1) as usize);
        }
        table_insert(&mut seen, key, before + 1);
        stats.lines_read = stats.lines_read + 1;
        if before == 0 {
            if options.count {
                held.push(slice_to_vec(line));
            } else {
                append_kept(output, line, 1, false);
                proof {
                    lemma_count_unused(lines[i], 1, occurrences(keys, keys[i]));
                }
            }
            stats.lines_written = stats.lines_written + 1;
        } else {
            stats.lines_removed = stats.lines_removed + 1;
            if options.show_removed {
                append_removed(output, line);
            }
        }
        proof {
            if options.count {
                lemma_removed_step(old(output)@, lines, keys, opts, i, previous, output@);
            } else {
                lemma_ordered_step(old(output)@, lines, keys, opts, i, previous, output@);
            }
        }
        pos = end;
    }
    proof {
        lemma_no_more_lines(input@, pos as int, stats.lines_read as int);
        lemma_counts_size(table_entries(seen), keys);
    }
    stats.unique_lines = table_len(&seen);
    if options.count {
        let ghost kept = survivors(opts.mode, keys, lines.len() as int);
        let ghost base = output@;
        let mut t: usize = 0;
        proof {
            lemma_survivors(opts.mode, keys, lines.len() as int);
            lemma_nothing_yet(base, lines, keys, opts);
            assert(kept.take(0) =~= Seq::<int>::empty());
        }
        while t < held.len()
            invariant
                t <= held@.len(),
                options.count,
                opts == under(*options, DeduplicationMode::KeepFirst),
                keys == line_keys(lines, opts),
                lines == split_lines(input@),
                kept == survivors(opts.mode, keys, lines.len() as int),
                held@.len() == kept.len(),
                forall|s: int| 0 <= s < held@.len() ==> (#[trigger] held@[s])@ == lines[kept[s]],
                forall|s: int| 0 <= s < kept.len() ==> 0 <= #[trigger] kept[s] < lines.len(),
                counts_prefix(table_entries(seen), keys, keys.len() as int),
                keys.len() == lines.len(),
                output@ == base + kept_records(lines, keys, true, kept.take(t as int)),
                t == held@.len() ==> kept.take(t as int) == kept,
            decreases held@.len() - t,
        {
            let line = held[t].as_slice();
            let ghost i = kept[t as int];
            let ghost previous = output@;
            proof {
                lemma_line_key(lines, *options, DeduplicationMode::KeepFirst, i);
                lemma_counts_lookup(table_entries(seen), keys, keys.len() as int, keys[i]);
                lemma_occurrences_zero(keys, keys[i]);
            }
            let key = make_key(line, options).unwrap();
            let count = match table_get(&seen, key.as_slice()) {
                Some(count) => count,
                None => 0,
            };
            append_kept(output, line, count, true);
            proof {
                lemma_kept_step(base, lines, keys, true, kept, t as int, previous, output@);
            }
            t = t + 1;
        }
        assert(output@ =~= old(output)@ + (removed_part(lines, keys, opts, lines.len() as int)
            + kept_records(lines, keys, true, kept)));
    }
    stats
}

/// Reads the input once and counts, for each key, the lines that hold it.
/// Gives the table of counts and the number of lines.
pub(crate) fn count_keys(input: &[u8], options: &DeduplicationOptions) -> (counted: (
    ahash::AHashMap<Vec<u8>, usize>,
    usize,
))
    ensures
        counted.1 == split_lines(input@).len(),
        counts_prefix(
            table_entries(counted.0),
            line_keys(split_lines(input@), *options),
            split_lines(input@).len() as int,
        ),
{
    let ghost lines = split_lines(input@);
    let ghost keys = line_keys(lines, *options);
    let mut counts = table_new();
    let mut read: usize = 0;
    let mut pos: usize = 0;
    proof {
        assert(lines.skip(0) =~= lines);
        lemma_empty_table(table_entries(counts), keys);
    }
    while pos < input.len()
        invariant
            pos <= input.len(),
            lines == split_lines(input@),
            keys == line_keys(lines, *options),
            read <= pos,
            read <= lines.len(),
            lines_from(input@, pos as int) == lines.skip(read as int),
            counts_prefix(table_entries(counts), keys, read as int),
        decreases input.len() - pos,
    {
        let ghost i = read as int;
        let end = find_line_end(input, pos);
        let line = slice_subrange(input, pos, end);
        proof {
            lemma_next_line(input@, pos as int, i);
            lemma_counts_lookup(table_entries(counts), keys, i, keys[i]);
        }
        let key = make_key(line, options).unwrap();
        let before = match table_get(&counts, key.as_slice()) {
            Some(count) => count,
            None => 0,
        };
        proof {
            lemma_counts_step(table_entries(counts), keys, i, (before + 1) as usize);
        }
        table_insert(&mut counts, key, before + 1);
        read = read + 1;
        pos = end;
    }
    proof {
        lemma_no_more_lines(input@, pos as int, read as int);
    }
    (counts, read)
}

/// Reads the input once and records, for each key, the position of the last
/// line that holds it. Gives the table of positions and the number of lines.
pub(crate) fn last_positions(input: &[u8], options: &DeduplicationOptions) -> (recorded: (
    ahash::AHashMap<Vec<u8>, usize>,
    usize,
))
    ensures
        recorded.1 == split_lines(input@).len(),
        last_prefix(
            table_entries(recorded.0),
            line_keys(split_lines(input@), *options),
            split_lines(input@).len() as int,
        ),
{
    let ghost lines = split_lines(input@);
    let ghost keys = line_keys(lines, *options);
    let mut last = table_new();
    let mut read: usize = 0;
    let mut pos: usize = 0;
    proof {
        assert(lines.skip(0) =~= lines);
        lemma_empty_table(table_entries(last), keys);
    }
    while pos < input.len()
        invariant
            pos <= input.len(),
            lines == split_lines(input@),
            keys == line_keys(lines, *options),
            read <= pos,
            read <= lines.len(),
            lines_from(input@, pos as int) == lines.skip(read as int),
            last_prefix(table_entries(last), keys, read as int),
        decreases input.len() - pos,
    {
        let ghost i = read as int;
        let end = find_line_end(input, pos);
        let line = slice_subrange(input, pos, end);
        proof {
            lemma_next_line(input@, pos as int, i);
            lemma_last_step(table_entries(last), keys, i);
        }
        let key = make_key(line, options).unwrap();
        table_insert(&mut last, key, read);
        read = read + 1;
        pos = end;
    }
    proof {
        lemma_no_more_lines(input@, pos as int, read as int);
    }
    (last, read)
}

/// Keeps the last line of each key. A first pass records where each key
/// occurs last, and one more counts the lines of each key where counts are
/// asked for; a last pass writes the lines in input order.
pub fn deduplicate_keep_last(
    input: &[u8],
    output: &mut Vec<u8>,
    options: &DeduplicationOptions,
) -> (stats: DeduplicationStats)
    ensures
        describes_run(
            input@,
            under(*options, DeduplicationMode::KeepLast),
            old(output)@,
            final(output)@,
            stats,
        ),
{
    let ghost opts = under(*options, DeduplicationMode::KeepLast);
    let ghost lines = split_lines(input@);
    let ghost keys = line_keys(lines, opts);
    assert(keys =~= line_keys(lines, *options));
    let (last, read) = last_positions(input, options);
    let counts = if options.count {
        count_keys(input, options).0
    } else {
        table_new()
    };
    let mut stats = DeduplicationStats::default();
    stats.lines_read = read;
    proof {
        lemma_last_size(table_entries(last), keys);
        lemma_nothing_yet(old(output)@, lines, keys, opts);
    }
    stats.unique_lines = table_len(&last);
    let mut index: usize = 0;
    let mut pos: usize = 0;
    while pos < input.len()
        invariant
            pos <= input.len(),
            opts == under(*options, DeduplicationMode::KeepLast),
            lines == split_lines(input@),
            keys == line_keys(lines, opts),
            keys.len() == lines.len(),
            index <= pos,
            index <= lines.len(),
            lines_from(input@, pos as int) == lines.skip(index as int),
            options.count ==> counts_prefix(table_entries(counts), keys, keys.len() as int),
            last_prefix(table_entries(last), keys, keys.len() as int),
            stats.lines_read == lines.len(),
            stats.unique_lines == keys.to_set().len(),
            stats.lines_written == survivors(opts.mode, keys, index as int).len(),
            stats.lines_written + stats.lines_removed == index,
            output@ == old(output)@ + ordered_part(lines, keys, opts, index as int),
        decreases input.len() - pos,
    {
        let ghost i = index as int;
        let ghost previous = output@;
        let end = find_line_end(input, pos);
        let line = slice_subrange(input, pos, end);
        proof {
            lemma_next_line(input@, pos as int, i);
            lemma_line_key(lines, *options, DeduplicationMode::KeepLast, i);
            lemma_last_lookup(table_entries(last), keys, i);
            lemma_occurrences_zero(keys, keys[i]);
            lemma_survivors_step(opts.mode, keys, i);
            if options.count {
                lemma_counts_lookup(table_entries(counts), keys, keys.len() as int, keys[i]);
            } else {
                lemma_count_unused(lines[i], 1, occurrences(keys, keys[i]));
            }
        }
        let key = make_key(line, options).unwrap();
        let is_kept = match table_get(&last, key.as_slice()) {
            Some(place) => place == index,
            None => false,
        };
        if is_kept {
            let count = if options.count {
                match table_get(&counts, key.as_slice()) {
                    Some(count) => count,
                    None => 0,
                }
            } else {
                1
            };
            append_kept(output, line, count, options.count);
            stats.lines_written = stats.lines_written + 1;
        } else {
            stats.lines_removed = stats.lines_removed + 1;
            if options.show_removed {
                append_removed(output, line);
            }
        }
        proof {
            lemma_ordered_step(old(output)@, lines, keys, opts, i, previous, output@);
        }
        index = index + 1;
        pos = end;
    }
    proof {
        lemma_no_more_lines(input@, pos as int, index as int);
    }
    stats
}

/// Keeps only the lines whose key occurs once. A first pass counts the lines
/// of each key; a second pass writes the lines in input order.
pub fn deduplicate_remove_all(
    input: &[u8],
    output: &mut Vec<u8>,
    options: &DeduplicationOptions,
) -> (stats: DeduplicationStats)
    ensures
        describes_run(
            input@,
            under(*options, DeduplicationMode::RemoveAll),
            old(output)@,
            final(output)@,
            stats,
        ),
{
    let ghost opts = under(*options, DeduplicationMode::RemoveAll);
    let ghost lines = split_lines(input@);
    let ghost keys = line_keys(lines, opts);
    assert(keys =~= line_keys(lines, *options));
    let (counts, read) = count_keys(input, options);
    let mut stats = DeduplicationStats::default();
    stats.lines_read = read;
    let mut index: usize = 0;
    let mut pos: usize = 0;
    proof {
        lemma_nothing_yet(old(output)@, lines, keys, opts);
    }
    while pos < input.len()
        invariant
            pos <= input.len(),
            opts == under(*options, DeduplicationMode::RemoveAll),
            lines == split_lines(input@),
            keys == line_keys(lines, opts),
            keys.len() == lines.len(),
            index <= pos,
            index <= lines.len(),
            lines_from(input@, pos as int) == lines.skip(index as int),
            counts_prefix(table_entries(counts), keys, keys.len() as int),
            stats.lines_read == lines.len(),
            stats.unique_lines == 0,
            stats.lines_written == survivors(opts.mode, keys, index as int).len(),
            stats.lines_written + stats.lines_removed == index,
            output@ == old(output)@ + ordered_part(lines, keys, opts, index as int),
        decreases input.len() - pos,
    {
        let ghost i = index as int;
        let ghost previous = output@;
        let end = find_line_end(input, pos);
        let line = slice_subrange(input, pos, end);
        proof {
            lemma_next_line(input@, pos as int, i);
            lemma_line_key(lines, *options, DeduplicationMode::RemoveAll, i);
            lemma_counts_lookup(table_entries(counts), keys, keys.len() as int, keys[i]);
            lemma_occurrences_zero(keys, keys[i]);
            lemma_survivors_step(opts.mode, keys, i);
        }
        let key = make_key(line, options).unwrap();
        let count = match table_get(&counts, key.as_slice()) {
            Some(count) => count,
            None => 0,
        };
        if count == 1 {
            append_kept(output, line, count, options.count);
            stats.lines_written = stats.lines_written + 1;
        } else {
            stats.lines_removed = stats.lines_removed + 1;
            if options.show_removed {
                append_removed(output, line);
            }
        }
        proof {
            lemma_ordered_step(old(output)@, lines, keys, opts, i, previous, output@);
        }
        index = index + 1;
        pos = end;
    }
    proof {
        lemma_no_more_lines(input@, pos as int, index as int);
        lemma_kept_count_is_unique_count(opts.mode, keys);
    }
    stats.unique_lines = stats.lines_written;
    stats
}

} // verus!
