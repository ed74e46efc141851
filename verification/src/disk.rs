//! The three policies with the table of keys held in a temporary database
//! on disk. Every access to the database can fail, and a failure ends the
//! run.

use crate::error::Error;
use crate::key::{line_keys, make_key};
use crate::lines::{find_line_end, lemma_next_line, lemma_no_more_lines, lines_from, split_lines};
use crate::policy::{
    is_last, lemma_first_by_count, lemma_kept_count_is_unique_count, lemma_occurrences_bound,
    lemma_occurrences_step, lemma_occurrences_zero, lemma_seen_keys, lemma_survivors, occurrences,
    survivors,
};
use crate::render::{
    append_bytes, append_kept, append_removed, describes_run, kept_records, lemma_count_unused,
    lemma_kept_step, lemma_line_key, lemma_nothing_yet, lemma_ordered_step, lemma_removed_step,
    lemma_survivors_step, ordered_part, removed_part, under,
};
use crate::store::{store_entries, store_error_text, store_get, store_open, store_put};
use crate::{DeduplicationMode, DeduplicationOptions, DeduplicationStats};
use sled::Error as StoreFailure;
use vstd::bytes::{
    lemma_auto_spec_u64_to_from_le_bytes, spec_u64_from_le_bytes, spec_u64_to_le_bytes,
    u64_from_le_bytes, u64_to_le_bytes,
};
use vstd::prelude::*;
use vstd::slice::{slice_subrange, slice_to_vec};
use vstd::string::*;

verus! {

/// The value stored for a key under `KeepLast`: the position of its last
/// line, then the number of its lines, each in eight bytes.
pub open spec fn last_record(place: u64, count: u64) -> Seq<u8> {
    spec_u64_to_le_bytes(place) + spec_u64_to_le_bytes(count)
}

/// The position that a record of sixteen bytes holds.
pub open spec fn record_place(record: Seq<u8>) -> u64 {
    spec_u64_from_le_bytes(record.subrange(0, 8))
}

/// The count that a record of sixteen bytes holds.
pub open spec fn record_count(record: Seq<u8>) -> u64 {
    spec_u64_from_le_bytes(record.subrange(8, 16))
}

/// A record gives back the position and the count it was made of.
pub proof fn lemma_last_record(place: u64, count: u64)
    ensures
        last_record(place, count).len() == 16,
        record_place(last_record(place, count)) == place,
        record_count(last_record(place, count)) == count,
{
    lemma_auto_spec_u64_to_from_le_bytes();
    let record = last_record(place, count);
    assert(record.subrange(0, 8) =~= spec_u64_to_le_bytes(place));
    assert(record.subrange(8, 16) =~= spec_u64_to_le_bytes(count));
}

/// True when the database holds, for each key among the first `i`, the
/// number of times it occurs there in eight bytes, and holds no other key.
#[verifier::opaque]
pub open spec fn stored_counts(entries: Map<Seq<u8>, Seq<u8>>, keys: Seq<Seq<u8>>, i: int) -> bool {
    &&& entries.dom() =~= keys.take(i).to_set()
    &&& forall|key: Seq<u8>| #[trigger]
        entries.contains_key(key) ==> entries[key] == spec_u64_to_le_bytes(
            occurrences(keys.take(i), key) as u64,
        )
}

/// True when the database holds, for each key among the first `i`, the
/// record of its last position before `i` and of the number of times it
/// occurs there, and holds no other key.
#[verifier::opaque]
pub open spec fn stored_last(entries: Map<Seq<u8>, Seq<u8>>, keys: Seq<Seq<u8>>, i: int) -> bool {
    &&& entries.dom() =~= keys.take(i).to_set()
    &&& forall|key: Seq<u8>| #[trigger]
        entries.contains_key(key) ==> {
            &&& entries[key].len() == 16
            &&& 0 <= record_place(entries[key]) < i
            &&& keys[record_place(entries[key]) as int] == key
            &&& forall|j: int| record_place(entries[key]) < j < i ==> #[trigger] keys[j] != key
            &&& record_count(entries[key]) == occurrences(keys.take(i), key)
        }
}

/// What the database of counts holds under a key: nothing where the key has
/// not occurred, else the number of times it has, which is at most the number
/// of lines counted.
pub proof fn lemma_stored_counts_lookup(
    entries: Map<Seq<u8>, Seq<u8>>,
    keys: Seq<Seq<u8>>,
    i: int,
    key: Seq<u8>,
)
    requires
        0 <= i <= keys.len(),
        i <= usize::MAX,
        stored_counts(entries, keys, i),
    ensures
        entries.contains_key(key) <==> occurrences(keys.take(i), key) > 0,
        entries.contains_key(key) ==> entries[key].len() == 8 && spec_u64_from_le_bytes(
            entries[key],
        ) == occurrences(keys.take(i), key),
        occurrences(keys.take(i), key) <= i,
        i == keys.len() ==> keys.take(i) == keys,
{
    reveal(stored_counts);
    lemma_seen_keys(keys, i, key);
    lemma_auto_spec_u64_to_from_le_bytes();
}

/// What the database of last positions holds under a key: nothing where the
/// key has not occurred, else a record of sixteen bytes with the number of
/// times it has, which is at most the number of lines recorded.
pub proof fn lemma_stored_last_count(
    entries: Map<Seq<u8>, Seq<u8>>,
    keys: Seq<Seq<u8>>,
    i: int,
    key: Seq<u8>,
)
    requires
        0 <= i <= keys.len(),
        stored_last(entries, keys, i),
    ensures
        entries.contains_key(key) <==> occurrences(keys.take(i), key) > 0,
        entries.contains_key(key) ==> entries[key].len() == 16 && record_count(entries[key])
            == occurrences(keys.take(i), key),
        occurrences(keys.take(i), key) <= i,
{
    reveal(stored_last);
    lemma_seen_keys(keys, i, key);
}

/// A database without keys is the database of counts of no lines, and that
/// of their last positions.
pub proof fn lemma_empty_store(entries: Map<Seq<u8>, Seq<u8>>, keys: Seq<Seq<u8>>)
    requires
        forall|key: Seq<u8>| !entries.contains_key(key),
    ensures
        stored_counts(entries, keys, 0),
        stored_last(entries, keys, 0),
{
    reveal(stored_counts);
    reveal(stored_last);
    assert(keys.take(0).to_set() =~= Set::empty());
    assert(entries.dom() =~= Set::empty());
}

/// The database of counts after one more line has been counted.
pub proof fn lemma_stored_counts_step(
    entries: Map<Seq<u8>, Seq<u8>>,
    keys: Seq<Seq<u8>>,
    i: int,
    count: u64,
)
    requires
        0 <= i < keys.len(),
        stored_counts(entries, keys, i),
        count == occurrences(keys.take(i), keys[i]) + 1,
    ensures
        stored_counts(entries.insert(keys[i], spec_u64_to_le_bytes(count)), keys, i + 1),
{
    reveal(stored_counts);
    let next = entries.insert(keys[i], spec_u64_to_le_bytes(count));
    lemma_occurrences_step(keys, i, keys[i]);
    assert(next.dom() =~= keys.take(i + 1).to_set());
    assert forall|key: Seq<u8>| #[trigger] next.contains_key(key) implies next[key]
        == spec_u64_to_le_bytes(occurrences(keys.take(i + 1), key) as u64) by {
        lemma_occurrences_step(keys, i, key);
    }
}

/// The database of last positions after one more line has been recorded.
pub proof fn lemma_stored_last_step(
    entries: Map<Seq<u8>, Seq<u8>>,
    keys: Seq<Seq<u8>>,
    i: int,
    count: u64,
)
    requires
        0 <= i < keys.len(),
        i <= u64::MAX,
        stored_last(entries, keys, i),
        count == occurrences(keys.take(i), keys[i]) + 1,
    ensures
        stored_last(entries.insert(keys[i], last_record(i as u64, count)), keys, i + 1),
{
    reveal(stored_last);
    let next = entries.insert(keys[i], last_record(i as u64, count));
    lemma_occurrences_step(keys, i, keys[i]);
    lemma_last_record(i as u64, count);
    assert(next.dom() =~= keys.take(i + 1).to_set());
    assert forall|key: Seq<u8>| #[trigger] next.contains_key(key) implies {
        &&& next[key].len() == 16
        &&& 0 <= record_place(next[key]) < i + 1
        &&& keys[record_place(next[key]) as int] == key
        &&& forall|j: int| record_place(next[key]) < j < i + 1 ==> #[trigger] keys[j] != key
        &&& record_count(next[key]) == occurrences(keys.take(i + 1), key)
    } by {
        lemma_occurrences_step(keys, i, key);
    }
}

/// With every line recorded, a line is the last of its key exactly when the
/// database holds its position under its key.
pub proof fn lemma_stored_last_lookup(entries: Map<Seq<u8>, Seq<u8>>, keys: Seq<Seq<u8>>, i: int)
    requires
        0 <= i < keys.len(),
        stored_last(entries, keys, keys.len() as int),
    ensures
        entries.contains_key(keys[i]),
        is_last(keys, i) <==> record_place(entries[keys[i]]) == i,
        entries[keys[i]].len() == 16,
        record_count(entries[keys[i]]) == occurrences(keys, keys[i]),
        occurrences(keys, keys[i]) <= keys.len(),
{
    reveal(stored_last);
    lemma_occurrences_bound(keys, keys[i]);
    assert(keys.take(keys.len() as int) =~= keys);
    assert(keys.to_set().contains(keys[i]));
    let held = record_place(entries[keys[i]]) as int;
    if is_last(keys, i) {
        if held < i {
            assert(keys[i] != keys[i]);
        } else if held > i {
            assert(keys[held] != keys[i]);
        }
    }
}

/// The error for a database that could not be opened.
pub fn open_failure(error: &StoreFailure) -> (failure: Error)
    ensures
        failure matches Error::InvalidArgument(text) && open_failure_heading().is_prefix_of(text@),
{
    let detail = store_error_text(error);
    let text = String::from_str("Failed to create temp database: ").concat(detail.as_str());
    assert(text@.subrange(0, "Failed to create temp database: "@.len() as int)
        =~= "Failed to create temp database: "@);
    Error::InvalidArgument(text)
}

/// The error for a database access that failed.
pub fn access_failure(error: &StoreFailure) -> (failure: Error)
    ensures
        failure matches Error::InvalidArgument(text) && access_failure_heading().is_prefix_of(
            text@,
        ),
{
    let detail = store_error_text(error);
    let text = String::from_str("Database error: ").concat(detail.as_str());
    assert(text@.subrange(0, "Database error: "@.len() as int) =~= "Database error: "@);
    Error::InvalidArgument(text)
}

/// The count to store for a key whose stored count is `held`: one more, or
/// one for a key not stored yet.
pub fn count_after(held: &Option<Vec<u8>>) -> (count: u64)
    requires
        held matches Some(value) ==> value@.len() == 8 && spec_u64_from_le_bytes(value@) < u64::MAX,
    ensures
        count == match held {
            Some(value) => spec_u64_from_le_bytes(value@) + 1,
            None => 1,
        },
{
    match held {
        Some(value) => u64_from_le_bytes(value.as_slice()) + 1,
        None => 1,
    }
}

/// The count to store for a key whose stored record is `held`: one more than
/// the record's count, or one for a key not stored yet or a record that is
/// not of sixteen bytes.
pub fn record_count_after(held: &Option<Vec<u8>>) -> (count: u64)
    requires
        held matches Some(value) ==> value@.len() == 16 ==> record_count(value@) < u64::MAX,
    ensures
        count == match held {
            Some(value) => if value@.len() == 16 {
                record_count(value@) + 1
            } else {
                1
            },
            None => 1,
        },
{
    match held {
        Some(value) => {
            if value.len() == 16 {
                u64_from_le_bytes(slice_subrange(value.as_slice(), 8, 16)) + 1
            } else {
                1
            }
        },
        None => 1,
    }
}

/// Makes the record of a position and a count.
pub fn make_last_record(place: u64, count: u64) -> (record: Vec<u8>)
    ensures
        record@ == last_record(place, count),
{
    let mut record = u64_to_le_bytes(place);
    let tail = u64_to_le_bytes(count);
    append_bytes(&mut record, tail.as_slice());
    record
}

/// What the error says first when the database could not be opened.
pub open spec fn open_failure_heading() -> Seq<char> {
    "Failed to create temp database: "@
}

/// What the error says first when reading or writing the database failed.
pub open spec fn access_failure_heading() -> Seq<char> {
    "Database error: "@
}

/// True when the error reports a failure of the database: an invalid
/// argument whose text starts with one of the two headings.
pub open spec fn reports_store_failure(failure: Error) -> bool {
    failure matches Error::InvalidArgument(text) && (open_failure_heading().is_prefix_of(text@)
        || access_failure_heading().is_prefix_of(text@))
}

/// True when a run that could fail ended as it should: a run that succeeded
/// left what a run over the input leaves, and one that failed reports a
/// failure of the database and has at most appended to the output.
pub open spec fn describes_attempt(
    input: Seq<u8>,
    options: DeduplicationOptions,
    before: Seq<u8>,
    after: Seq<u8>,
    run: Result<DeduplicationStats, Error>,
) -> bool {
    match run {
        Ok(stats) => describes_run(input, options, before, after, stats),
        Err(failure) => reports_store_failure(failure) && before.is_prefix_of(after),
    }
}

/// Keeps the first line of each key, in one pass, with the counts of the
/// keys in a temporary database.
pub fn deduplicate_keep_first_disk(
    input: &[u8],
    output: &mut Vec<u8>,
    options: &DeduplicationOptions,
) -> (run: Result<DeduplicationStats, Error>)
    ensures
        describes_attempt(
            input@,
            under(*options, DeduplicationMode::KeepFirst),
            old(output)@,
            final(output)@,
            run,
        ),
{
    let ghost opts = under(*options, DeduplicationMode::KeepFirst);
    let ghost lines = split_lines(input@);
    let ghost keys = line_keys(lines, opts);
    proof {
        lemma_nothing_yet(old(output)@, lines, keys, opts);
    }
    let mut db = match store_open() {
        Ok(db) => db,
        Err(error) => {
            return Err(open_failure(&error));
        },
    };
    let mut stats = DeduplicationStats::default();
    let mut held: Vec<Vec<u8>> = Vec::new();
    let mut pos: usize = 0;
    proof {
        lemma_empty_store(store_entries(db), keys);
    }
    while pos < input.len()
        invariant
            pos <= input.len(),
            opts == under(*options, DeduplicationMode::KeepFirst),
            lines == split_lines(input@),
            keys == line_keys(lines, opts),
            keys.len() == lines.len(),
            stats.lines_read <= pos,
            stats.lines_read <= lines.len(),
            lines_from(input@, pos as int) == lines.skip(stats.lines_read as int),
            stored_counts(store_entries(db), keys, stats.lines_read as int),
            stats.lines_written == survivors(opts.mode, keys, stats.lines_read as int).len(),
            stats.lines_written + stats.lines_removed == stats.lines_read,
            stats.unique_lines == 0,
            old(output)@.is_prefix_of(output@),
            !options.count ==> output@ == old(output)@ + ordered_part(
                lines,
                keys,
                opts,
                stats.lines_read as int,
            ),
            options.count ==> output@ == old(output)@ + removed_part(
                lines,
                keys,
                opts,
                stats.lines_read as int,
            ),
            options.count ==> held@.len() == stats.lines_written,
            options.count ==> forall|t: int|
                0 <= t < held@.len() ==> (#[trigger] held@[t])@ == lines[survivors(
                    opts.mode,
                    keys,
                    stats.lines_read as int,
                )[t]],
        decreases input.len() - pos,
    {
        let ghost i = stats.lines_read as int;
        let ghost previous = output@;
        let end = find_line_end(input, pos);
        let line = slice_subrange(input, pos, end);
        proof {
            lemma_next_line(input@, pos as int, i);
            lemma_line_key(lines, *options, DeduplicationMode::KeepFirst, i);
            lemma_stored_counts_lookup(store_entries(db), keys, i, keys[i]);
            lemma_first_by_count(keys, i);
            lemma_survivors_step(opts.mode, keys, i);
        }
        let key = make_key(line, options).unwrap();
        let found = match store_get(&db, key.as_slice()) {
            Ok(found) => found,
            Err(error) => {
                return Err(access_failure(&error));
            },
        };
        let count = count_after(&found);
        let value = u64_to_le_bytes(count);
        proof {
            lemma_stored_counts_step(store_entries(db), keys, i, count);
        }
        match store_put(&mut db, key.as_slice(), value.as_slice()) {
            Ok(()) => {},
            Err(error) => {
                return Err(access_failure(&error));
            },
        }
        stats.lines_read = stats.lines_read + 1;
        if count == 1 {
            if options.count {
                held.push(slice_to_vec(line));
            } else {
                append_kept(output, line, 1, false);
                proof {
                    lemma_count_unused(lines[i], 1, occurrences(keys, keys[i]));
                }
            }
            stats.lines_written = stats.lines_written + 1;
        } else {
            stats.lines_removed = stats.lines_removed + 1;
            if options.show_removed {
                append_removed(output, line);
            }
        }
        proof {
            if options.count {
                lemma_removed_step(old(output)@, lines, keys, opts, i, previous, output@);
            } else {
                lemma_ordered_step(old(output)@, lines, keys, opts, i, previous, output@);
            }
        }
        pos = end;
    }
    proof {
        lemma_no_more_lines(input@, pos as int, stats.lines_read as int);
        lemma_kept_count_is_unique_count(opts.mode, keys);
    }
    stats.unique_lines = stats.lines_written;
    if options.count {
        let ghost kept = survivors(opts.mode, keys, lines.len() as int);
        let ghost base = output@;
        let mut t: usize = 0;
        proof {
            lemma_survivors(opts.mode, keys, lines.len() as int);
            lemma_nothing_yet(base, lines, keys, opts);
            assert(kept.take(0) =~= Seq::<int>::empty());
        }
        while t < held.len()
            invariant
                t <= held@.len(),
                options.count,
                opts == under(*options, DeduplicationMode::KeepFirst),
                keys == line_keys(lines, opts),
                lines == split_lines(input@),
                kept == survivors(opts.mode, keys, lines.len() as int),
                held@.len() == kept.len(),
                forall|s: int| 0 <= s < held@.len() ==> (#[trigger] held@[s])@ == lines[kept[s]],
                forall|s: int| 0 <= s < kept.len() ==> 0 <= #[trigger] kept[s] < lines.len(),
                stored_counts(store_entries(db), keys, keys.len() as int),
                keys.len() == lines.len(),
                keys.len() <= usize::MAX,
                old(output)@.is_prefix_of(base),
                base.is_prefix_of(output@),
                output@ == base + kept_records(lines, keys, true, kept.take(t as int)),
                t == held@.len() ==> kept.take(t as int) == kept,
            decreases held@.len() - t,
        {
            let line = held[t].as_slice();
            let ghost i = kept[t as int];
            let ghost previous = output@;
            proof {
                lemma_line_key(lines, *options, DeduplicationMode::KeepFirst, i);
                lemma_stored_counts_lookup(store_entries(db), keys, keys.len() as int, keys[i]);
                lemma_occurrences_zero(keys, keys[i]);
            }
            let key = make_key(line, options).unwrap();
            let found = match store_get(&db, key.as_slice()) {
                Ok(found) => found,
                Err(error) => {
                    return Err(access_failure(&error));
                },
            };
            let count = match found {
                Some(value) => u64_from_le_bytes(value.as_slice()),
                None => 0,
            };
            append_kept(output, line, count as usize, true);
            proof {
                lemma_kept_step(base, lines, keys, true, kept, t as int, previous, output@);
            }
            t = t + 1;
        }
        assert(output@ =~= old(output)@ + (removed_part(lines, keys, opts, lines.len() as int)
            + kept_records(lines, keys, true, kept)));
    }
    Ok(stats)
}

/// Keeps the last line of each key, with the last position and the count of
/// each key in a temporary database. A first pass fills the database; a
/// second pass reads the input again from its start and writes the lines in
/// input order.
pub fn deduplicate_keep_last_disk(
    input: &[u8],
    output: &mut Vec<u8>,
    options: &DeduplicationOptions,
) -> (run: Result<DeduplicationStats, Error>)
    ensures
        describes_attempt(
            input@,
            under(*options, DeduplicationMode::KeepLast),
            old(output)@,
            final(output)@,
            run,
        ),
{
    let ghost opts = under(*options, DeduplicationMode::KeepLast);
    let ghost firsts = DeduplicationMode::KeepFirst;
    let ghost lines = split_lines(input@);
    let ghost keys = line_keys(lines, opts);
    proof {
        lemma_nothing_yet(old(output)@, lines, keys, opts);
        lemma_nothing_yet(old(output)@, lines, keys, under(*options, firsts));
    }
    let mut db = match store_open() {
        Ok(db) => db,
        Err(error) => {
            return Err(open_failure(&error));
        },
    };
    let mut stats = DeduplicationStats::default();
    let mut pos: usize = 0;
    proof {
        lemma_empty_store(store_entries(db), keys);
    }
    while pos < input.len()
        invariant
            pos <= input.len(),
            opts == under(*options, DeduplicationMode::KeepLast),
            firsts == DeduplicationMode::KeepFirst,
            lines == split_lines(input@),
            keys == line_keys(lines, opts),
            keys.len() == lines.len(),
            stats.lines_read <= pos,
            stats.lines_read <= lines.len(),
            lines_from(input@, pos as int) == lines.skip(stats.lines_read as int),
            stored_last(store_entries(db), keys, stats.lines_read as int),
            stats.unique_lines == survivors(firsts, keys, stats.lines_read as int).len(),
            stats.lines_written == 0,
            stats.lines_removed == 0,
            output@ == old(output)@,
        decreases input.len() - pos,
    {
        let ghost i = stats.lines_read as int;
        let end = find_line_end(input, pos);
        let line = slice_subrange(input, pos, end);
        proof {
            lemma_next_line(input@, pos as int, i);
            lemma_line_key(lines, *options, DeduplicationMode::KeepLast, i);
            lemma_stored_last_count(store_entries(db), keys, i, keys[i]);
            lemma_first_by_count(keys, i);
            lemma_survivors_step(firsts, keys, i);
        }
        let key = make_key(line, options).unwrap();
        let found = match store_get(&db, key.as_slice()) {
            Ok(found) => found,
            Err(error) => {
                return Err(access_failure(&error));
            },
        };
        let count = record_count_after(&found);
        let value = make_last_record(stats.lines_read as u64, count);
        proof {
            lemma_stored_last_step(store_entries(db), keys, i, count);
        }
        match store_put(&mut db, key.as_slice(), value.as_slice()) {
            Ok(()) => {},
            Err(error) => {
                return Err(access_failure(&error));
            },
        }
        if found.is_none() {
            stats.unique_lines = stats.unique_lines + 1;
        }
        stats.lines_read = stats.lines_read + 1;
        pos = end;
    }
    proof {
        lemma_no_more_lines(input@, pos as int, stats.lines_read as int);
        lemma_kept_count_is_unique_count(firsts, keys);
    }
    let mut index: usize = 0;
    pos = 0;
    while pos < input.len()
        invariant
            pos <= input.len(),
            opts == under(*options, DeduplicationMode::KeepLast),
            lines == split_lines(input@),
            keys == line_keys(lines, opts),
            keys.len() == lines.len(),
            index <= pos,
            index <= lines.len(),
            lines_from(input@, pos as int) == lines.skip(index as int),
            stored_last(store_entries(db), keys, keys.len() as int),
            stats.lines_read == lines.len(),
            stats.unique_lines == keys.to_set().len(),
            stats.lines_written == survivors(opts.mode, keys, index as int).len(),
            stats.lines_written + stats.lines_removed == index,
            old(output)@.is_prefix_of(output@),
            output@ == old(output)@ + ordered_part(lines, keys, opts, index as int),
        decreases input.len() - pos,
    {
        let ghost i = index as int;
        let ghost previous = output@;
        let end = find_line_end(input, pos);
        let line = slice_subrange(input, pos, end);
        proof {
            lemma_next_line(input@, pos as int, i);
            lemma_line_key(lines, *options, DeduplicationMode::KeepLast, i);
            lemma_stored_last_lookup(store_entries(db), keys, i);
            lemma_survivors_step(opts.mode, keys, i);
        }
        let key = make_key(line, options).unwrap();
        let found = match store_get(&db, key.as_slice()) {
            Ok(found) => found,
            Err(error) => {
                return Err(access_failure(&error));
            },
        };
        let (place, count) = match found {
            Some(value) => (
                u64_from_le_bytes(slice_subrange(value.as_slice(), 0, 8)),
                u64_from_le_bytes(slice_subrange(value.as_slice(), 8, 16)),
            ),
            None => (0, 0),
        };
        if place == index as u64 {
            append_kept(output, line, count as usize, options.count);
            stats.lines_written = stats.lines_written + 1;
        } else {
            stats.lines_removed = stats.lines_removed + 1;
            if options.show_removed {
                append_removed(output, line);
            }
        }
        proof {
            lemma_ordered_step(old(output)@, lines, keys, opts, i, previous, output@);
        }
        index = index + 1;
        pos = end;
    }
    proof {
        lemma_no_more_lines(input@, pos as int, index as int);
    }
    Ok(stats)
}

/// Keeps only the lines whose key occurs once, with the counts of the keys
/// in a temporary database. A first pass fills the database; a second pass
/// reads the input again from its start and writes the lines in input order.
pub fn deduplicate_remove_all_disk(
    input: &[u8],
    output: &mut Vec<u8>,
    options: &DeduplicationOptions,
) -> (run: Result<DeduplicationStats, Error>)
    ensures
        describes_attempt(
            input@,
            under(*options, DeduplicationMode::RemoveAll),
            old(output)@,
            final(output)@,
            run,
        ),
{
    let ghost opts = under(*options, DeduplicationMode::RemoveAll);
    let ghost lines = split_lines(input@);
    let ghost keys = line_keys(lines, opts);
    proof {
        lemma_nothing_yet(old(output)@, lines, keys, opts);
    }
    let mut db = match store_open() {
        Ok(db) => db,
        Err(error) => {
            return Err(open_failure(&error));
        },
    };
    let mut stats = DeduplicationStats::default();
    let mut pos: usize = 0;
    proof {
        lemma_empty_store(store_entries(db), keys);
    }
    while pos < input.len()
        invariant
            pos <= input.len(),
            opts == under(*options, DeduplicationMode::RemoveAll),
            lines == split_lines(input@),
            keys == line_keys(lines, opts),
            keys.len() == lines.len(),
            stats.lines_read <= pos,
            stats.lines_read <= lines.len(),
            lines_from(input@, pos as int) == lines.skip(stats.lines_read as int),
            stored_counts(store_entries(db), keys, stats.lines_read as int),
            stats.unique_lines == 0,
            stats.lines_written == 0,
            stats.lines_removed == 0,
            output@ == old(output)@,
        decreases input.len() - pos,
    {
        let ghost i = stats.lines_read as int;
        let end = find_line_end(input, pos);
        let line = slice_subrange(input, pos, end);
        proof {
            lemma_next_line(input@, pos as int, i);
            lemma_line_key(lines, *options, DeduplicationMode::RemoveAll, i);
            lemma_stored_counts_lookup(store_entries(db), keys, i, keys[i]);
        }
        let key = make_key(line, options).unwrap();
        let found = match store_get(&db, key.as_slice()) {
            Ok(found) => found,
            Err(error) => {
                return Err(access_failure(&error));
            },
        };
        let count = count_after(&found);
        let value = u64_to_le_bytes(count);
        proof {
            lemma_stored_counts_step(store_entries(db), keys, i, count);
        }
        match store_put(&mut db, key.as_slice(), value.as_slice()) {
            Ok(()) => {},
            Err(error) => {
                return Err(access_failure(&error));
            },
        }
        stats.lines_read = stats.lines_read + 1;
        pos = end;
    }
    proof {
        lemma_no_more_lines(input@, pos as int, stats.lines_read as int);
    }
    let mut index: usize = 0;
    pos = 0;
    while pos < input.len()
        invariant
            pos <= input.len(),
            opts == under(*options, DeduplicationMode::RemoveAll),
            lines == split_lines(input@),
            keys == line_keys(lines, opts),
            keys.len() == lines.len(),
            index <= pos,
            index <= lines.len(),
            lines_from(input@, pos as int) == lines.skip(index as int),
            stored_counts(store_entries(db), keys, keys.len() as int),
            stats.lines_read == lines.len(),
            stats.unique_lines == 0,
            stats.lines_written == survivors(opts.mode, keys, index as int).len(),
            stats.lines_written + stats.lines_removed == index,
            old(output)@.is_prefix_of(output@),
            output@ == old(output)@ + ordered_part(lines, keys, opts, index as int),
        decreases input.len() - pos,
    {
        let ghost i = index as int;
        let ghost previous = output@;
        let end = find_line_end(input, pos);
        let line = slice_subrange(input, pos, end);
        proof {
            lemma_next_line(input@, pos as int, i);
            lemma_line_key(lines, *options, DeduplicationMode::RemoveAll, i);
            lemma_stored_counts_lookup(store_entries(db), keys, keys.len() as int, keys[i]);
            lemma_occurrences_zero(keys, keys[i]);
            lemma_survivors_step(opts.mode, keys, i);
        }
        let key = make_key(line, options).unwrap();
        let found = match store_get(&db, key.as_slice()) {
            Ok(found) => found,
            Err(error) => {
                return Err(access_failure(&error));
            },
        };
        let count = match found {
            Some(value) => u64_from_le_bytes(value.as_slice()),
            None => 0,
        };
        if count == 1 {
            append_kept(output, line, 1, options.count);
            stats.lines_written = stats.lines_written + 1;
        } else {
            stats.lines_removed = stats.lines_removed + 1;
            if options.show_removed {
                append_removed(output, line);
            }
        }
        proof {
            lemma_ordered_step(old(output)@, lines, keys, opts, i, previous, output@);
        }
        index = index + 1;
        pos = end;
    }
    proof {
        lemma_no_more_lines(input@, pos as int, index as int);
        lemma_kept_count_is_unique_count(opts.mode, keys);
    }
    stats.unique_lines = stats.lines_written;
    Ok(stats)
}

} // verus!
