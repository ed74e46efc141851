//! Deriving the key by which lines are told apart.
//!
//! The key of a line is taken from its content, the line without its
//! terminator. Where a column is asked for, the content is cut into fields
//! at whitespace, and the field's own bytes are the key: bytes that are not
//! text are kept as they are. Whitespace is one of the six ASCII whitespace
//! bytes, or a longer UTF-8 sequence that encodes one whitespace character;
//! every other byte, part of valid text or not, belongs to a field.

use crate::error::Error;
use crate::lines::{content_len, strip_terminator};
use crate::text::{char_is_whitespace, is_whitespace_char, lowercase, lowercase_of, utf8_text};
use crate::DeduplicationOptions;
use vstd::prelude::*;
use vstd::slice::{slice_subrange, slice_to_vec};
use vstd::string::*;
use vstd::utf8::*;

verus! {

/// True for the ASCII whitespace bytes: space, tab, line feed, vertical tab,
/// form feed and carriage return.
pub open spec fn is_ascii_whitespace(byte: u8) -> bool {
    byte == 32 || (9 <= byte && byte <= 13)
}

/// The number of bytes that a UTF-8 sequence with this first byte has, or
/// zero for a byte that starts no sequence.
pub open spec fn sequence_width(lead: u8) -> int {
    if lead < 128 {
        1
    } else if lead < 192 {
        0
    } else if lead < 224 {
        2
    } else if lead < 240 {
        3
    } else if lead < 248 {
        4
    } else {
        0
    }
}

/// True when a whitespace character of more than one byte stands at
/// position `at`: the byte there starts a sequence that lies inside the
/// content and encodes one character, and that character is whitespace.
pub open spec fn wide_whitespace_at(content: Seq<u8>, at: int) -> bool {
    let width = sequence_width(content[at]);
    let window = content.subrange(at, at + width);
    &&& 2 <= width
    &&& at + width <= content.len()
    &&& valid_utf8(window)
    &&& decode_utf8(window).len() == 1
    &&& is_whitespace_char(decode_utf8(window)[0])
}

/// The number of bytes of the whitespace that stands at position `at`, or
/// zero where a field byte stands there.
pub open spec fn whitespace_len(content: Seq<u8>, at: int) -> int {
    if is_ascii_whitespace(content[at]) {
        1
    } else if wide_whitespace_at(content, at) {
        sequence_width(content[at])
    } else {
        0
    }
}

/// The first position at or after `from` where a field byte stands, or the
/// end of the content where only whitespace follows.
pub open spec fn field_start(content: Seq<u8>, from: int) -> int
    decreases content.len() - from,
{
    if from < 0 || from >= content.len() {
        content.len() as int
    } else if whitespace_len(content, from) > 0 {
        field_start(content, from + whitespace_len(content, from))
    } else {
        from
    }
}

/// The first position at or after `from` where whitespace stands, or the end
/// of the content where only field bytes follow.
pub open spec fn field_end(content: Seq<u8>, from: int) -> int
    decreases content.len() - from,
{
    if from < 0 || from >= content.len() {
        content.len() as int
    } else if whitespace_len(content, from) > 0 {
        from
    } else {
        field_end(content, from + 1)
    }
}

/// The fields of the content from position `from` on: its maximal runs of
/// field bytes, in order.
pub open spec fn fields_from(content: Seq<u8>, from: int) -> Seq<Seq<u8>>
    decreases content.len() - from,
{
    if from < 0 || field_start(content, from) >= content.len() || field_end(
        content,
        field_start(content, from),
    ) <= from || field_end(content, field_start(content, from)) > content.len() {
        Seq::empty()
    } else {
        seq![
            content.subrange(
                field_start(content, from),
                field_end(content, field_start(content, from)),
            ),
        ] + fields_from(content, field_end(content, field_start(content, from)))
    }
}

/// The fields of the content.
pub open spec fn fields(content: Seq<u8>) -> Seq<Seq<u8>> {
    fields_from(content, 0)
}

/// The bytes of field `column`, counted from 1, or the whole content where
/// there is no such field.
pub open spec fn chosen_field(content: Seq<u8>, column: usize) -> Seq<u8> {
    if 0 < column && column <= fields(content).len() {
        fields(content)[column - 1]
    } else {
        content
    }
}

/// The part of the content that is keyed on: one column of it where one is
/// asked for and exists, else all of it.
pub open spec fn column_data(content: Seq<u8>, column: Option<usize>) -> Seq<u8> {
    match column {
        Some(index) => chosen_field(content, index),
        None => content,
    }
}

/// The bytes in lower case where `lowered` holds their lower-case text, which
/// it does where they are text; the bytes as they are where they are not.
pub open spec fn folded_or_raw(data: Seq<u8>, lowered: Option<Seq<char>>) -> Seq<u8> {
    match lowered {
        Some(text) => encode_utf8(text),
        None => data,
    }
}

/// The lower-case text of the bytes, where they are valid UTF-8.
pub open spec fn lowered_text(data: Seq<u8>) -> Option<Seq<char>> {
    if valid_utf8(data) {
        Some(lowercase_of(decode_utf8(data)))
    } else {
        None
    }
}

/// The key of a line's content under the options.
pub open spec fn derive_key(content: Seq<u8>, options: DeduplicationOptions) -> Seq<u8> {
    let data = column_data(content, options.column);
    if options.ignore_case {
        folded_or_raw(data, lowered_text(data))
    } else {
        data
    }
}

/// The key of a line: that of its content, the line without its terminator.
pub open spec fn line_key(line: Seq<u8>, options: DeduplicationOptions) -> Seq<u8> {
    derive_key(strip_terminator(line), options)
}

/// The keys of the lines, in order.
pub open spec fn line_keys(lines: Seq<Seq<u8>>, options: DeduplicationOptions) -> Seq<Seq<u8>> {
    Seq::new(lines.len(), |i: int| line_key(lines[i], options))
}

/// Whitespace lies inside the content.
pub proof fn lemma_whitespace_len_bounds(content: Seq<u8>, at: int)
    requires
        0 <= at < content.len(),
    ensures
        0 <= whitespace_len(content, at) <= 4,
        at + whitespace_len(content, at) <= content.len(),
{
}

/// A field starts at or after the position searched from, on a field byte
/// or at the end of the content.
pub proof fn lemma_field_start_bounds(content: Seq<u8>, from: int)
    requires
        0 <= from <= content.len(),
    ensures
        from <= field_start(content, from) <= content.len(),
        field_start(content, from) < content.len() ==> whitespace_len(
            content,
            field_start(content, from),
        ) == 0,
    decreases content.len() - from,
{
    if from < content.len() && whitespace_len(content, from) > 0 {
        lemma_whitespace_len_bounds(content, from);
        lemma_field_start_bounds(content, from + whitespace_len(content, from));
    }
}

/// A field that starts on a field byte ends behind it, inside the content.
pub proof fn lemma_field_end_bounds(content: Seq<u8>, from: int)
    requires
        0 <= from <= content.len(),
    ensures
        from <= field_end(content, from) <= content.len(),
        from < content.len() && whitespace_len(content, from) == 0 ==> from < field_end(
            content,
            from,
        ),
    decreases content.len() - from,
{
    if from < content.len() && whitespace_len(content, from) == 0 {
        lemma_field_end_bounds(content, from + 1);
    }
}

/// Unfolds the fields from a position: where a field starts behind it, that
/// field and then the fields behind it; else none.
pub proof fn lemma_fields_step(content: Seq<u8>, from: int)
    requires
        0 <= from <= content.len(),
    ensures
        field_start(content, from) >= content.len() ==> fields_from(content, from).len() == 0,
        field_start(content, from) < content.len() ==> {
            &&& fields_from(content, from).len() > 0
            &&& fields_from(content, from)[0] == content.subrange(
                field_start(content, from),
                field_end(content, field_start(content, from)),
            )
            &&& fields_from(content, from).skip(1) == fields_from(
                content,
                field_end(content, field_start(content, from)),
            )
        },
{
    lemma_field_start_bounds(content, from);
    let start = field_start(content, from);
    if start < content.len() {
        lemma_field_end_bounds(content, start);
        let end = field_end(content, start);
        let first = content.subrange(start, end);
        let rest = fields_from(content, end);
        assert(fields_from(content, from) == seq![first] + rest);
        assert((seq![first] + rest).skip(1) =~= rest);
    }
}

/// Measures the whitespace that stands at position `at`: the number of its
/// bytes, or zero where a field byte stands there.
pub fn whitespace_width(content: &[u8], at: usize) -> (width: usize)
    requires
        at < content.len(),
    ensures
        width == whitespace_len(content@, at as int),
        at + width <= content.len(),
{
    let lead = content[at];
    if lead == 32 || (9 <= lead && lead <= 13) {
        return 1;
    }
    let width: usize = if lead < 192 {
        0
    } else if lead < 224 {
        2
    } else if lead < 240 {
        3
    } else if lead < 248 {
        4
    } else {
        0
    };
    if width < 2 || width > content.len() - at {
        return 0;
    }
    let window = slice_subrange(content, at, at + width);
    match utf8_text(window) {
        Some(text) => {
            proof {
                encode_utf8_decode_utf8(text@);
            }
            if text.unicode_len() == 1 && char_is_whitespace(text.get_char(0)) {
                width
            } else {
                0
            }
        },
        None => 0,
    }
}

/// Finds where the next field starts, at or after `from`.
pub fn find_field_start(content: &[u8], from: usize) -> (start: usize)
    requires
        from <= content.len(),
    ensures
        start == field_start(content@, from as int),
        from <= start <= content.len(),
{
    let mut pos: usize = from;
    while pos < content.len()
        invariant
            from <= pos <= content.len(),
            field_start(content@, from as int) == field_start(content@, pos as int),
        decreases content.len() - pos,
    {
        let width = whitespace_width(content, pos);
        if width == 0 {
            return pos;
        }
        pos = pos + width;
    }
    pos
}

/// Finds where the field that holds position `from` ends.
pub fn find_field_end(content: &[u8], from: usize) -> (end: usize)
    requires
        from <= content.len(),
    ensures
        end == field_end(content@, from as int),
        from <= end <= content.len(),
{
    let mut pos: usize = from;
    while pos < content.len()
        invariant
            from <= pos <= content.len(),
            field_end(content@, from as int) == field_end(content@, pos as int),
        decreases content.len() - pos,
    {
        if whitespace_width(content, pos) > 0 {
            return pos;
        }
        pos = pos + 1;
    }
    pos
}

/// Picks field `column`, counted from 1, out of the content, and falls back
/// to the whole content where there is no such field.
pub fn pick_column(content: &[u8], column: usize) -> (data: Vec<u8>)
    ensures
        data@ == chosen_field(content@, column),
{
    if column == 0 {
        return slice_to_vec(content);
    }
    let ghost all = fields(content@);
    let mut passed: usize = 0;
    let mut pos: usize = 0;
    assert(all.skip(0) =~= all);
    while pos < content.len()
        invariant
            pos <= content.len(),
            all == fields(content@),
            passed < column,
            passed <= pos,
            passed <= all.len(),
            fields_from(content@, pos as int) == all.skip(passed as int),
        decreases content.len() - pos,
    {
        proof {
            lemma_fields_step(content@, pos as int);
            lemma_field_start_bounds(content@, pos as int);
        }
        let start = find_field_start(content, pos);
        if start >= content.len() {
            return slice_to_vec(content);
        }
        proof {
            lemma_field_end_bounds(content@, start as int);
            assert(all.skip(passed as int)[0] == all[passed as int]);
            assert(all.skip(passed as int).skip(1) =~= all.skip(passed + 1));
        }
        let end = find_field_end(content, start);
        if passed + 1 == column {
            return slice_to_vec(slice_subrange(content, start, end));
        }
        passed = passed + 1;
        pos = end;
    }
    proof {
        lemma_fields_step(content@, pos as int);
    }
    slice_to_vec(content)
}

/// Gives the lower-case form of the data where there is one, and the data
/// itself where there is none.
pub fn fold_or_keep(data: Vec<u8>, lowered: Option<String>) -> (key: Vec<u8>)
    ensures
        key@ == folded_or_raw(
            data@,
            match lowered {
                Some(text) => Some(text@),
                None => None,
            },
        ),
{
    match lowered {
        Some(text) => text.as_str().as_bytes_vec(),
        None => data,
    }
}

/// Derives the key of a line. A final line feed, with a carriage return
/// before it, is no part of the key. Never fails: bytes that are not text
/// are keyed as they are.
pub fn make_key(line: &[u8], options: &DeduplicationOptions) -> (key: Result<Vec<u8>, Error>)
    ensures
        key matches Ok(bytes) && bytes@ == line_key(line@, *options),
{
    let content = slice_subrange(line, 0, content_len(line));
    let data = match options.column {
        Some(index) => pick_column(content, index),
        None => slice_to_vec(content),
    };
    if options.ignore_case {
        let lowered = match utf8_text(data.as_slice()) {
            Some(text) => {
                proof {
                    encode_utf8_decode_utf8(text@);
                }
                Some(lowercase(text))
            },
            None => None,
        };
        Ok(fold_or_keep(data, lowered))
    } else {
        Ok(data)
    }
}

} // verus!
