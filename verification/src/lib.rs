//! Line deduplication that keeps the order of the input.
//!
//! Three policies decide which of the lines that share a key survive: the
//! first, the last, or none of them. The key of a line is its content, or one
//! whitespace-separated column of it, optionally folded to lower case.

use crate::disk::{
    deduplicate_keep_first_disk, deduplicate_keep_last_disk, deduplicate_remove_all_disk,
    describes_attempt,
};
use crate::memory::{deduplicate_keep_first, deduplicate_keep_last, deduplicate_remove_all};
use vstd::prelude::*;
use vstd::string::*;

pub mod disk;
pub mod error;
pub mod key;
pub mod laws;
pub mod lines;
pub mod memory;
pub mod policy;
pub mod render;
pub mod store;
pub mod table;
pub mod text;

pub use error::Error;

verus! {

/// Which of the lines that share a key survive.
#[derive(Debug, Clone, Copy, PartialEq, Eq, Structural)]
pub enum DeduplicationMode {
    /// The first line of each key.
    KeepFirst,
    /// The last line of each key.
    KeepLast,
    /// Only the lines whose key occurs once.
    RemoveAll,
}

/// The settings of one run.
#[derive(Debug, Clone, Copy)]
pub struct DeduplicationOptions {
    /// The policy.
    pub mode: DeduplicationMode,
    /// Fold keys to lower case.
    pub ignore_case: bool,
    /// Put the number of lines that share its key before each kept line.
    pub count: bool,
    /// Write removed lines too, behind a marker.
    pub show_removed: bool,
    /// Key on this whitespace-separated column, counted from 1.
    pub column: Option<usize>,
    /// Keep the table of keys in a temporary database on disk.
    pub use_disk: bool,
}

impl Default for DeduplicationOptions {
    fn default() -> (options: DeduplicationOptions)
        ensures
            options.mode == DeduplicationMode::KeepFirst,
            !options.ignore_case,
            !options.count,
            !options.show_removed,
            options.column.is_none(),
            !options.use_disk,
    {
        DeduplicationOptions {
            mode: DeduplicationMode::KeepFirst,
            ignore_case: false,
            count: false,
            show_removed: false,
            column: None,
            use_disk: false,
        }
    }
}

/// The counters of one run.
#[derive(Debug)]
pub struct DeduplicationStats {
    /// Lines in the input.
    pub lines_read: usize,
    /// Lines kept.
    pub lines_written: usize,
    /// Lines dropped.
    pub lines_removed: usize,
    /// Distinct keys; under `RemoveAll`, keys that occur once.
    pub unique_lines: usize,
}

impl Default for DeduplicationStats {
    fn default() -> (stats: DeduplicationStats)
        ensures
            stats.lines_read == 0,
            stats.lines_written == 0,
            stats.lines_removed == 0,
            stats.unique_lines == 0,
    {
        DeduplicationStats { lines_read: 0, lines_written: 0, lines_removed: 0, unique_lines: 0 }
    }
}

/// What the error says when a policy that reads its input twice is asked to
/// keep its table on disk for an input that can be read only once.
pub open spec fn seekable_input_required() -> Seq<char> {
    "Disk-backed KeepLast and RemoveAll modes require a seekable input. Use deduplicate_seekable() or provide a file."@
}

/// True when the options ask for the table on disk under a policy that reads
/// its input twice.
pub open spec fn needs_second_reading(options: DeduplicationOptions) -> bool {
    options.use_disk && options.mode != DeduplicationMode::KeepFirst
}

/// Tells whether the options ask for the table on disk under a policy that
/// reads its input twice, so that only an input that can be read again will
/// do.
pub fn requires_seekable_input(options: &DeduplicationOptions) -> (needed: bool)
    ensures
        needed == needs_second_reading(*options),
{
    options.use_disk && (match options.mode {
        DeduplicationMode::KeepFirst => false,
        DeduplicationMode::KeepLast => true,
        DeduplicationMode::RemoveAll => true,
    })
}

/// What the error says when both policy switches are set.
pub open spec fn conflicting_modes() -> Seq<char> {
    "keep-last cannot be used with remove-all"@
}

/// The policy that two switches select: `KeepLast` for the first,
/// `RemoveAll` for the second, `KeepFirst` for neither. Both together are
/// refused with an invalid-argument error.
pub fn select_mode(keep_last: bool, remove_all: bool) -> (mode: Result<DeduplicationMode, Error>)
    ensures
        keep_last && remove_all ==> (mode matches Err(Error::InvalidArgument(text)) && text@
            == conflicting_modes()),
        keep_last && !remove_all ==> mode matches Ok(DeduplicationMode::KeepLast),
        !keep_last && remove_all ==> mode matches Ok(DeduplicationMode::RemoveAll),
        !keep_last && !remove_all ==> mode matches Ok(DeduplicationMode::KeepFirst),
{
    if keep_last && remove_all {
        Err(Error::InvalidArgument(String::from_str("keep-last cannot be used with remove-all")))
    } else if keep_last {
        Ok(DeduplicationMode::KeepLast)
    } else if remove_all {
        Ok(DeduplicationMode::RemoveAll)
    } else {
        Ok(DeduplicationMode::KeepFirst)
    }
}

/// Deduplicates an input that can be read only once, and appends what the run
/// writes to `output`.
///
/// With the table in memory every policy is served and the run cannot fail.
/// With the table on disk only `KeepFirst` is served: the other policies read
/// their input twice and are refused with an invalid-argument error, the
/// output left as it was. A run on disk can also fail on the database.
pub fn deduplicate(input: &[u8], output: &mut Vec<u8>, options: &DeduplicationOptions) -> (run:
    Result<DeduplicationStats, Error>)
    ensures
        needs_second_reading(*options) ==> final(output)@ == old(output)@ && (
        run matches Err(Error::InvalidArgument(text)) && text@ == seekable_input_required()),
        !needs_second_reading(*options) ==> describes_attempt(
            input@,
            *options,
            old(output)@,
            final(output)@,
            run,
        ),
        !options.use_disk ==> run is Ok,
        run matches Ok(stats) ==> stats.lines_written + stats.lines_removed == stats.lines_read,
{
    if requires_seekable_input(options) {
        Err(
            Error::InvalidArgument(
                String::from_str(
                    "Disk-backed KeepLast and RemoveAll modes require a seekable input. Use deduplicate_seekable() or provide a file.",
                ),
            ),
        )
    } else if options.use_disk {
        deduplicate_keep_first_disk(input, output, options)
    } else {
        match options.mode {
            DeduplicationMode::KeepFirst => Ok(deduplicate_keep_first(input, output, options)),
            DeduplicationMode::KeepLast => Ok(deduplicate_keep_last(input, output, options)),
            DeduplicationMode::RemoveAll => Ok(deduplicate_remove_all(input, output, options)),
        }
    }
}

/// Deduplicates an input that can be read again from its start, and appends
/// what the run writes to `output`. Every policy is served, in memory and on
/// disk. Only a run on disk can fail, and only on the database.
pub fn deduplicate_seekable(
    input: &[u8],
    output: &mut Vec<u8>,
    options: &DeduplicationOptions,
) -> (run: Result<DeduplicationStats, Error>)
    ensures
        !options.use_disk ==> run is Ok,
        describes_attempt(input@, *options, old(output)@, final(output)@, run),
        run matches Ok(stats) ==> stats.lines_written + stats.lines_removed == stats.lines_read,
{
    if options.use_disk {
        match options.mode {
            DeduplicationMode::KeepLast => deduplicate_keep_last_disk(input, output, options),
            DeduplicationMode::RemoveAll => deduplicate_remove_all_disk(input, output, options),
            DeduplicationMode::KeepFirst => deduplicate(input, output, options),
        }
    } else {
        deduplicate(input, output, options)
    }
}

} // verus!
