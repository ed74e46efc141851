use uniqr::{deduplicate, deduplicate_seekable, DeduplicationMode, DeduplicationOptions, Error};

fn run(input: &[u8], opts: &DeduplicationOptions) -> (Vec<u8>, uniqr::DeduplicationStats) {
    let mut output = Vec::new();
    let stats = deduplicate(input, &mut output, opts).unwrap();
    (output, stats)
}

fn run_seekable(input: &[u8], opts: &DeduplicationOptions) -> (Vec<u8>, uniqr::DeduplicationStats) {
    let mut output = Vec::new();
    let stats = deduplicate_seekable(input, &mut output, opts).unwrap();
    (output, stats)
}

fn contains(haystack: &[u8], needle: &[u8]) -> bool {
    haystack.windows(needle.len()).any(|window| window == needle)
}

#[test]
fn test_keep_first_basic() {
    let input = b"a\nb\na\nc\n";
    let mut output = Vec::new();

    let opts = DeduplicationOptions::default();
    let stats = deduplicate(input, &mut output, &opts).unwrap();

    assert_eq!(output, b"a\nb\nc\n");
    assert_eq!(stats.lines_read, 4);
    assert_eq!(stats.lines_written, 3);
    assert_eq!(stats.lines_removed, 1);
}

#[test]
fn lib_test_ignore_case() {
    let input = b"Apple\napple\nBanana\n";
    let mut output = Vec::new();

    let opts = DeduplicationOptions { ignore_case: true, ..Default::default() };
    let stats = deduplicate(input, &mut output, &opts).unwrap();

    assert_eq!(output, b"Apple\nBanana\n");
    assert_eq!(stats.unique_lines, 2);
}

#[test]
fn test_keep_last() {
    let input = b"a\nb\na\nc\n";
    let mut output = Vec::new();

    let opts = DeduplicationOptions { mode: DeduplicationMode::KeepLast, ..Default::default() };
    let stats = deduplicate(input, &mut output, &opts).unwrap();

    assert_eq!(output, b"b\na\nc\n");
    assert_eq!(stats.lines_written, 3);
}

#[test]
fn test_remove_all() {
    let input = b"a\nb\na\nc\n";
    let mut output = Vec::new();

    let opts = DeduplicationOptions { mode: DeduplicationMode::RemoveAll, ..Default::default() };
    let stats = deduplicate(input, &mut output, &opts).unwrap();

    assert_eq!(output, b"b\nc\n");
    assert_eq!(stats.unique_lines, 2);
}

#[test]
fn lib_test_empty_input() {
    let input = b"";
    let mut output = Vec::new();

    let opts = DeduplicationOptions::default();
    let stats = deduplicate(input, &mut output, &opts).unwrap();

    assert_eq!(stats.lines_read, 0);
    assert_eq!(stats.lines_written, 0);
}

#[test]
fn test_non_utf8() {
    let input = vec![0xFF, 0xFE, b'\n', 0xFF, 0xFE, b'\n', b'a', b'\n'];
    let mut output = Vec::new();

    let opts = DeduplicationOptions::default();
    let stats = deduplicate(&input, &mut output, &opts).unwrap();

    assert_eq!(stats.lines_written, 2);
}

#[test]
fn test_disk_backed_keep_first() {
    let input = b"a\nb\na\nc\n";
    let mut output = Vec::new();

    let opts = DeduplicationOptions { use_disk: true, ..Default::default() };
    let stats = deduplicate(input, &mut output, &opts).unwrap();

    assert_eq!(output, b"a\nb\nc\n");
    assert_eq!(stats.lines_written, 3);
    assert_eq!(stats.unique_lines, 3);
}

#[test]
fn test_disk_backed_keep_last() {
    let input = b"a\nb\na\nc\n";
    let mut output = Vec::new();

    let opts = DeduplicationOptions {
        mode: DeduplicationMode::KeepLast,
        use_disk: true,
        ..Default::default()
    };
    let stats = deduplicate_seekable(input, &mut output, &opts).unwrap();

    assert_eq!(output, b"b\na\nc\n");
    assert_eq!(stats.lines_written, 3);
}

#[test]
fn test_disk_backed_remove_all() {
    let input = b"a\nb\na\nc\n";
    let mut output = Vec::new();

    let opts = DeduplicationOptions {
        mode: DeduplicationMode::RemoveAll,
        use_disk: true,
        ..Default::default()
    };
    let stats = deduplicate_seekable(input, &mut output, &opts).unwrap();

    assert_eq!(output, b"b\nc\n");
    assert_eq!(stats.unique_lines, 2);
}

#[test]
fn test_basic_dedup_stdin() {
    let (output, _) = run(b"line1\nline2\nline1\nline3\n", &DeduplicationOptions::default());
    assert_eq!(output, b"line1\nline2\nline3\n");
}

#[test]
fn test_keep_last_mode() {
    let opts = DeduplicationOptions { mode: DeduplicationMode::KeepLast, ..Default::default() };
    let (output, _) = run(b"a\nb\na\nc\n", &opts);
    assert_eq!(output, b"b\na\nc\n");
}

#[test]
fn test_remove_all_mode() {
    let opts = DeduplicationOptions { mode: DeduplicationMode::RemoveAll, ..Default::default() };
    let (output, _) = run(b"a\nb\na\nc\n", &opts);
    assert_eq!(output, b"b\nc\n");
}

#[test]
fn integration_test_test_ignore_case() {
    let opts = DeduplicationOptions { ignore_case: true, ..Default::default() };
    let (output, _) = run(b"Apple\napple\nBanana\n", &opts);
    assert_eq!(output, b"Apple\nBanana\n");
}

#[test]
fn test_count_flag() {
    let opts = DeduplicationOptions { count: true, ..Default::default() };
    let (output, _) = run(b"a\nb\na\na\n", &opts);
    assert!(contains(&output, b"3"));
    assert!(contains(&output, b"1"));
    assert_eq!(output, b"      3 a\n      1 b\n");
}

#[test]
fn test_stats_flag() {
    let (_, stats) = run(b"a\nb\na\n", &DeduplicationOptions::default());
    assert_eq!(stats.lines_read, 3);
    assert_eq!(stats.lines_written, 2);
}

#[test]
fn test_file_input() {
    let (output, _) = run_seekable(b"x\ny\nx\n", &DeduplicationOptions::default());
    assert_eq!(output, b"x\ny\n");
}

#[test]
fn test_file_output() {
    let (output, _) = run(b"1\n2\n1\n", &DeduplicationOptions::default());
    assert_eq!(String::from_utf8(output).unwrap(), "1\n2\n");
}

#[test]
fn test_dry_run() {
    let (_, stats) = run(b"a\nb\na\n", &DeduplicationOptions::default());
    assert_eq!(stats.lines_written, 2);
}

#[test]
fn integration_test_test_empty_input() {
    let (output, _) = run(b"", &DeduplicationOptions::default());
    assert_eq!(output, b"");
}

#[test]
fn test_show_removed() {
    let opts = DeduplicationOptions { show_removed: true, ..Default::default() };
    let (output, _) = run(b"a\nb\na\n", &opts);
    assert!(contains(&output, b"[REMOVED] a"));
    assert_eq!(output, b"a\nb\n[REMOVED] a\n");
}

#[test]
fn test_single_line() {
    let (output, _) = run(b"only\n", &DeduplicationOptions::default());
    assert_eq!(output, b"only\n");
}

#[test]
fn test_all_duplicates() {
    let (output, _) = run(b"x\nx\nx\n", &DeduplicationOptions::default());
    assert_eq!(output, b"x\n");
}

#[test]
fn test_column_mode() {
    let opts = DeduplicationOptions { column: Some(1), ..Default::default() };
    let (output, _) = run(b"1\tapple\n2\tbanana\n1\torange\n", &opts);
    assert_eq!(output, b"1\tapple\n2\tbanana\n");
}

#[test]
fn test_keep_last_count() {
    let opts = DeduplicationOptions {
        mode: DeduplicationMode::KeepLast,
        count: true,
        ..Default::default()
    };
    let (output, _) = run(b"a\nb\na\n", &opts);
    assert!(contains(&output, b"2 a"));
    assert!(contains(&output, b"1 b"));
    assert_eq!(output, b"      1 b\n      2 a\n");
}

#[test]
fn test_empty_line_preservation() {
    let (output, _) = run(b"a\n\nb\n\na\n", &DeduplicationOptions::default());
    assert_eq!(output, b"a\n\nb\n");
}

#[test]
fn test_disk_backed_keep_last_count() {
    let opts = DeduplicationOptions {
        mode: DeduplicationMode::KeepLast,
        count: true,
        use_disk: true,
        ..Default::default()
    };
    let (output, _) = run_seekable(b"a\nb\na\n", &opts);
    assert!(contains(&output, b"2 a"));
    assert!(contains(&output, b"1 b"));
    assert_eq!(output, b"      1 b\n      2 a\n");
}

#[test]
fn disk_two_pass_policies_need_a_second_reading() {
    for mode in [DeduplicationMode::KeepLast, DeduplicationMode::RemoveAll] {
        let opts = DeduplicationOptions { mode, use_disk: true, ..Default::default() };
        let mut output = b"kept".to_vec();
        match deduplicate(b"a\na\n", &mut output, &opts) {
            Err(Error::InvalidArgument(text)) => assert_eq!(
                text,
                "Disk-backed KeepLast and RemoveAll modes require a seekable input. Use deduplicate_seekable() or provide a file."
            ),
            other => panic!("unexpected result: {:?}", other),
        }
        assert_eq!(output, b"kept");
    }
}

#[test]
fn empty_input_leaves_all_counters_zero() {
    for mode in [DeduplicationMode::KeepFirst, DeduplicationMode::KeepLast, DeduplicationMode::RemoveAll] {
        for use_disk in [false, true] {
            let opts = DeduplicationOptions { mode, use_disk, ..Default::default() };
            let (output, stats) = run_seekable(b"", &opts);
            assert_eq!(output, b"");
            assert_eq!(stats.lines_read, 0);
            assert_eq!(stats.lines_written, 0);
            assert_eq!(stats.lines_removed, 0);
            assert_eq!(stats.unique_lines, 0);
        }
    }
}

#[test]
fn counters_add_up_under_every_policy() {
    let input = b"a\nb\r\nA\nb\n\nc d\nc e\na";
    for mode in [DeduplicationMode::KeepFirst, DeduplicationMode::KeepLast, DeduplicationMode::RemoveAll] {
        for use_disk in [false, true] {
            for ignore_case in [false, true] {
                let opts = DeduplicationOptions {
                    mode,
                    use_disk,
                    ignore_case,
                    column: Some(1),
                    ..Default::default()
                };
                let (_, stats) = run_seekable(input, &opts);
                assert_eq!(stats.lines_read, 8);
                assert_eq!(stats.lines_written + stats.lines_removed, stats.lines_read);
            }
        }
    }
}

#[test]
fn keep_first_twice_gives_the_same_output() {
    let opts = DeduplicationOptions::default();
    let (first, _) = run(b"b\na\nb\nc\na\nlast", &opts);
    assert_eq!(first, b"b\na\nc\nlast\n");
    let (second, stats) = run(&first, &opts);
    assert_eq!(second, first);
    assert_eq!(stats.lines_removed, 0);
}

#[test]
fn one_line_per_key_or_only_single_keys() {
    let input = b"x\ny\nx\nz\ny\nx\n";
    let first = DeduplicationOptions::default();
    let (output, stats) = run(input, &first);
    assert_eq!(output, b"x\ny\nz\n");
    assert_eq!(stats.unique_lines, 3);
    assert_eq!(stats.lines_written, 3);

    let last = DeduplicationOptions { mode: DeduplicationMode::KeepLast, ..Default::default() };
    let (output, stats) = run(input, &last);
    assert_eq!(output, b"z\ny\nx\n");
    assert_eq!(stats.unique_lines, 3);
    assert_eq!(stats.lines_written, 3);

    let none = DeduplicationOptions { mode: DeduplicationMode::RemoveAll, ..Default::default() };
    let (output, stats) = run(input, &none);
    assert_eq!(output, b"z\n");
    assert_eq!(stats.unique_lines, 1);
    assert_eq!(stats.lines_removed, 5);
}

#[test]
fn terminators_are_stripped_for_the_key_and_normalised_on_output() {
    let opts = DeduplicationOptions { show_removed: true, ..Default::default() };
    let (output, stats) = run(b"a\r\na\nb", &opts);
    assert_eq!(output, b"a\n[REMOVED] a\nb\n");
    assert_eq!(stats.lines_read, 3);
    assert_eq!(stats.unique_lines, 2);
}

#[test]
fn removed_lines_keep_their_bytes() {
    let opts = DeduplicationOptions {
        mode: DeduplicationMode::RemoveAll,
        show_removed: true,
        ..Default::default()
    };
    let (output, _) = run(b"a\r\nb\na", &opts);
    assert_eq!(output, b"[REMOVED] a\r\nb\n[REMOVED] a");
}

#[test]
fn counted_keep_first_writes_removed_lines_first() {
    let opts = DeduplicationOptions { count: true, show_removed: true, ..Default::default() };
    for use_disk in [false, true] {
        let opts = DeduplicationOptions { use_disk, ..opts.clone() };
        let (output, _) = run(b"a\nb\na\n", &opts);
        assert_eq!(output, b"[REMOVED] a\n      2 a\n      1 b\n");
    }
}

#[test]
fn count_field_is_seven_wide_and_grows_beyond() {
    let mut input = Vec::new();
    for _ in 0..12 {
        input.extend_from_slice(b"k\n");
    }
    let opts = DeduplicationOptions { count: true, ..Default::default() };
    let (output, _) = run(&input, &opts);
    assert_eq!(output, b"     12 k\n");

    let mut output = Vec::new();
    uniqr::render::append_count_field(&mut output, 7);
    assert_eq!(output, b"      7 ");
    let mut output = Vec::new();
    uniqr::render::append_count_field(&mut output, 1234567);
    assert_eq!(output, b"1234567 ");
    let mut output = Vec::new();
    uniqr::render::append_count_field(&mut output, 12345678);
    assert_eq!(output, b"12345678 ");
    let mut output = Vec::new();
    uniqr::render::append_count_field(&mut output, 0);
    assert_eq!(output, b"      0 ");
}

#[test]
fn remove_all_counts_are_one() {
    let opts = DeduplicationOptions {
        mode: DeduplicationMode::RemoveAll,
        count: true,
        ..Default::default()
    };
    for use_disk in [false, true] {
        let opts = DeduplicationOptions { use_disk, ..opts.clone() };
        let (output, stats) = run_seekable(b"a\nb\na\nc\n", &opts);
        assert_eq!(output, b"      1 b\n      1 c\n");
        assert_eq!(stats.unique_lines, 2);
    }
}

#[test]
fn keys_follow_column_and_case() {
    let plain = DeduplicationOptions::default();
    assert_eq!(uniqr::key::make_key(b"  Two  Words ", &plain).unwrap(), b"  Two  Words ");

    let second = DeduplicationOptions { column: Some(2), ..Default::default() };
    assert_eq!(uniqr::key::make_key(b"  Two  Words ", &second).unwrap(), b"Words");

    let missing = DeduplicationOptions { column: Some(3), ..Default::default() };
    assert_eq!(uniqr::key::make_key(b"Two Words", &missing).unwrap(), b"Two Words");

    let zero = DeduplicationOptions { column: Some(0), ..Default::default() };
    assert_eq!(uniqr::key::make_key(b"Two Words", &zero).unwrap(), b"Two Words");

    let folded = DeduplicationOptions { ignore_case: true, column: Some(1), ..Default::default() };
    assert_eq!(uniqr::key::make_key("\u{c4}B c".as_bytes(), &folded).unwrap(), "\u{e4}b".as_bytes());

    let raw = DeduplicationOptions { ignore_case: true, ..Default::default() };
    assert_eq!(uniqr::key::make_key(&[0xFF, b'A'], &raw).unwrap(), vec![0xFF, b'A']);
}

#[test]
fn column_and_fold_helpers() {
    assert_eq!(uniqr::key::pick_column(b"one two", 2), b"two");
    assert_eq!(uniqr::key::pick_column(b"one two", 3), b"one two");
    assert_eq!(uniqr::key::pick_column(b"one two", 0), b"one two");
    assert_eq!(uniqr::key::pick_column(b" \t one\x0b\x0c\rtwo  ", 1), b"one");
    assert_eq!(uniqr::key::pick_column(b" \t one\x0b\x0c\rtwo  ", 2), b"two");
    assert_eq!(uniqr::key::pick_column(b"   ", 1), b"   ");
    assert_eq!(uniqr::key::pick_column(b"", 1), b"");
    assert_eq!(uniqr::key::fold_or_keep(b"AB".to_vec(), Some("ab".to_string())), b"ab");
    assert_eq!(uniqr::key::fold_or_keep(b"AB".to_vec(), None), b"AB");
}

#[test]
fn the_key_never_holds_the_terminator() {
    let plain = DeduplicationOptions::default();
    assert_eq!(uniqr::key::make_key(b"a\r\n", &plain).unwrap(), b"a");
    assert_eq!(uniqr::key::make_key(b"a\n", &plain).unwrap(), b"a");
    assert_eq!(uniqr::key::make_key(b"a", &plain).unwrap(), b"a");
    assert_eq!(uniqr::key::make_key(b"a\r", &plain).unwrap(), b"a\r");
    assert_eq!(uniqr::key::make_key(b"\n", &plain).unwrap(), b"");
}

#[test]
fn a_column_is_keyed_on_its_own_bytes() {
    let first = DeduplicationOptions { column: Some(1), ..Default::default() };
    assert_eq!(uniqr::key::make_key(&[0xFF, b' ', b'a'], &first).unwrap(), vec![0xFF]);
    assert_eq!(uniqr::key::make_key(&[0xFE, b' ', b'a'], &first).unwrap(), vec![0xFE]);
    let second = DeduplicationOptions { column: Some(2), ..Default::default() };
    assert_eq!(uniqr::key::make_key(&[b'x', b'\t', 0xC3, 0x28, b'\n'], &second).unwrap(), vec![0xC3, 0x28]);

    let (output, stats) = run(&[0xFF, b' ', b'1', b'\n', 0xFE, b' ', b'2', b'\n', 0xFF, b' ', b'3', b'\n'], &first);
    assert_eq!(output, vec![0xFF, b' ', b'1', b'\n', 0xFE, b' ', b'2', b'\n']);
    assert_eq!(stats.unique_lines, 2);
}

#[test]
fn wide_whitespace_parts_fields() {
    let second = DeduplicationOptions { column: Some(2), ..Default::default() };
    assert_eq!(uniqr::key::make_key("a\u{a0}b".as_bytes(), &second).unwrap(), b"b");
    assert_eq!(uniqr::key::make_key("a\u{3000}\u{2003} b\u{85}c".as_bytes(), &second).unwrap(), b"b");
    assert_eq!(uniqr::key::make_key("a\u{1680}b".as_bytes(), &second).unwrap(), b"b");
    let first = DeduplicationOptions { column: Some(1), ..Default::default() };
    assert_eq!(
        uniqr::key::make_key("\u{8d8a}\u{e9}\u{1f600} z".as_bytes(), &first).unwrap(),
        "\u{8d8a}\u{e9}\u{1f600}".as_bytes()
    );
    assert_eq!(uniqr::key::whitespace_width("\u{a0}".as_bytes(), 0), 2);
    assert_eq!(uniqr::key::whitespace_width("\u{3000}".as_bytes(), 0), 3);
    assert_eq!(uniqr::key::whitespace_width("\u{e9}".as_bytes(), 0), 0);
    assert_eq!(uniqr::key::whitespace_width("\u{1f600}".as_bytes(), 0), 0);
    assert_eq!(uniqr::key::whitespace_width(&[0xC2], 0), 0);
    assert_eq!(uniqr::key::whitespace_width(&[0xA0], 0), 0);
    assert_eq!(uniqr::key::whitespace_width(&[0xC2, 0xC2, 0xA0], 0), 0);
    assert_eq!(uniqr::key::whitespace_width(&[0xC2, 0xC2, 0xA0], 1), 2);
    assert_eq!(uniqr::key::whitespace_width(b" ", 0), 1);
    assert_eq!(uniqr::key::whitespace_width(b"a", 0), 0);
    assert_eq!(uniqr::key::whitespace_width(&[0x1F], 0), 0);
}

#[test]
fn fields_match_split_whitespace_on_text() {
    let samples = [
        "one two",
        "  lead\tand\u{a0}trail \u{2028}",
        "\u{e9}t\u{e9}\u{3000}\u{8d8a} x\u{85}y\u{205f}z",
        "\u{1f600}\u{202f}\u{1f600}",
        "\u{1c}a\u{1f}b \u{200b}c",
        "",
    ];
    for sample in samples {
        let expected: Vec<&str> = sample.split_whitespace().collect();
        for column in 1..=expected.len() + 1 {
            let data = uniqr::key::pick_column(sample.as_bytes(), column);
            match expected.get(column - 1) {
                Some(field) => assert_eq!(data, field.as_bytes()),
                None => assert_eq!(data, sample.as_bytes()),
            }
        }
    }
}

#[test]
fn field_bounds() {
    let content = b"  ab  c";
    assert_eq!(uniqr::key::find_field_start(content, 0), 2);
    assert_eq!(uniqr::key::find_field_start(content, 2), 2);
    assert_eq!(uniqr::key::find_field_end(content, 2), 4);
    assert_eq!(uniqr::key::find_field_start(content, 4), 6);
    assert_eq!(uniqr::key::find_field_end(content, 6), 7);
    assert_eq!(uniqr::key::find_field_start(content, 7), 7);
    assert_eq!(uniqr::key::find_field_start(b"  ", 0), 2);
}

#[test]
fn lines_end_behind_their_line_feed() {
    let input = b"ab\n\ncd";
    assert_eq!(uniqr::lines::find_line_end(input, 0), 3);
    assert_eq!(uniqr::lines::find_line_end(input, 1), 3);
    assert_eq!(uniqr::lines::find_line_end(input, 3), 4);
    assert_eq!(uniqr::lines::find_line_end(input, 4), 6);
    assert_eq!(uniqr::lines::content_len(b"ab\r\n"), 2);
    assert_eq!(uniqr::lines::content_len(b"ab\n"), 2);
    assert_eq!(uniqr::lines::content_len(b"ab\r"), 3);
    assert_eq!(uniqr::lines::content_len(b"\n"), 0);
    assert_eq!(uniqr::lines::content_len(b""), 0);
}

#[test]
fn disk_records_hold_place_and_count() {
    assert_eq!(
        uniqr::disk::make_last_record(2, 258),
        vec![2, 0, 0, 0, 0, 0, 0, 0, 2, 1, 0, 0, 0, 0, 0, 0]
    );
    assert_eq!(uniqr::disk::count_after(&None), 1);
    assert_eq!(uniqr::disk::count_after(&Some(vec![4, 1, 0, 0, 0, 0, 0, 0])), 261);
    assert_eq!(uniqr::disk::record_count_after(&None), 1);
    assert_eq!(uniqr::disk::record_count_after(&Some(vec![1, 2, 3])), 1);
    assert_eq!(
        uniqr::disk::record_count_after(&Some(vec![9, 0, 0, 0, 0, 0, 0, 0, 3, 0, 0, 0, 0, 0, 0, 0])),
        4
    );
}

#[test]
fn error_messages_name_their_kind() {
    let invalid = Error::InvalidArgument("bad".to_string());
    assert_eq!(invalid.message(), "Invalid argument: bad");
    let io = Error::from(std::io::Error::new(std::io::ErrorKind::Other, "gone"));
    assert_eq!(io.message(), "I/O error: gone");
    let utf8 = Error::from(String::from_utf8(vec![0xFF]).unwrap_err());
    assert!(utf8.message().starts_with("UTF-8 error: "));
}

#[test]
fn disk_and_memory_agree() {
    let input = b"b 1\na 2\nB 3\r\na 4\n\n\nc 5";
    for mode in [DeduplicationMode::KeepFirst, DeduplicationMode::KeepLast, DeduplicationMode::RemoveAll] {
        for count in [false, true] {
            let memory = DeduplicationOptions {
                mode,
                count,
                show_removed: true,
                ignore_case: true,
                column: Some(1),
                use_disk: false,
            };
            let disk = DeduplicationOptions { use_disk: true, ..memory.clone() };
            let (expected, expected_stats) = run_seekable(input, &memory);
            let (output, stats) = run_seekable(input, &disk);
            assert_eq!(output, expected);
            assert_eq!(stats.lines_read, expected_stats.lines_read);
            assert_eq!(stats.lines_written, expected_stats.lines_written);
            assert_eq!(stats.lines_removed, expected_stats.lines_removed);
            assert_eq!(stats.unique_lines, expected_stats.unique_lines);
        }
    }
}

#[test]
fn output_is_appended() {
    let mut output = b"head\n".to_vec();
    deduplicate(b"a\na\n", &mut output, &DeduplicationOptions::default()).unwrap();
    assert_eq!(output, b"head\na\n");
}

#[test]
fn switches_select_the_policy() {
    assert_eq!(uniqr::select_mode(false, false).unwrap(), DeduplicationMode::KeepFirst);
    assert_eq!(uniqr::select_mode(true, false).unwrap(), DeduplicationMode::KeepLast);
    assert_eq!(uniqr::select_mode(false, true).unwrap(), DeduplicationMode::RemoveAll);
    match uniqr::select_mode(true, true) {
        Err(Error::InvalidArgument(text)) => {
            assert!(text.contains("cannot be used with"));
            assert_eq!(text, "keep-last cannot be used with remove-all");
        }
        other => panic!("unexpected result: {:?}", other),
    }
}

#[test]
fn only_two_pass_policies_on_disk_need_a_seekable_input() {
    for mode in [DeduplicationMode::KeepFirst, DeduplicationMode::KeepLast, DeduplicationMode::RemoveAll] {
        for use_disk in [false, true] {
            let opts = DeduplicationOptions { mode, use_disk, ..Default::default() };
            let expected = use_disk && mode != DeduplicationMode::KeepFirst;
            assert_eq!(uniqr::requires_seekable_input(&opts), expected);
        }
    }
}

#[test]
fn every_character_is_whitespace_as_the_standard_library_says() {
    let mut buffer = [0u8; 4];
    for c in '\0'..=char::MAX {
        let encoded = c.encode_utf8(&mut buffer).as_bytes();
        let expected = if c.is_whitespace() { encoded.len() } else { 0 };
        assert_eq!(uniqr::key::whitespace_width(encoded, 0), expected, "{:?}", c);
    }
}
