use sanitizer::scan::scan_and_filter;

#[test]
fn utf8_accent_is_removed_bytewise() {
    // "café" in UTF-8: the accented letter is a two-byte sequence
    let r = scan_and_filter(b"caf\xc3\xa9\n");
    assert_eq!(r.non_ascii_positions, vec![(1, 4), (1, 5)]);
    assert_eq!(r.filtered, b"caf\n".to_vec());
    assert_eq!(r.removed_bytes, vec![0xc3, 0xa9]);
    assert!(r.watermark_hits.is_empty());
}

#[test]
fn dash_separator_line_is_dropped() {
    let r = scan_and_filter(b"// ----\nfn f() {}\n");
    assert_eq!(r.filtered, b"\nfn f() {}\n".to_vec());
    assert_eq!(r.watermark_hits.len(), 1);
    assert_eq!(r.watermark_hits[0].line, 1);
    assert_eq!(r.watermark_hits[0].column, 1);
    assert_eq!(r.watermark_hits[0].label, "//\\s*--+");
    assert!(r.non_ascii_positions.is_empty());
    assert!(r.removed_bytes.is_empty());
}

#[test]
fn empty_input_yields_empty_result() {
    let r = scan_and_filter(b"");
    assert!(r.filtered.is_empty());
    assert!(r.non_ascii_positions.is_empty());
    assert!(r.removed_bytes.is_empty());
    assert!(r.watermark_hits.is_empty());
}

#[test]
fn all_non_ascii_line_becomes_empty() {
    let r = scan_and_filter(b"\xff\xfe\n");
    assert_eq!(r.filtered, b"\n".to_vec());
    assert_eq!(r.removed_bytes, vec![0xff, 0xfe]);
    assert_eq!(r.non_ascii_positions, vec![(1, 1), (1, 2)]);
    assert_eq!(entropy::shannon_entropy(&r.removed_bytes), 1.0f32);
}

#[test]
fn clean_terminated_input_passes_through() {
    let r = scan_and_filter(b"hello\nworld\n");
    assert_eq!(r.filtered, b"hello\nworld\n".to_vec());
    assert!(r.non_ascii_positions.is_empty());
    assert!(r.watermark_hits.is_empty());
}

#[test]
fn final_line_gains_a_terminator() {
    let r = scan_and_filter(b"abc");
    assert_eq!(r.filtered, b"abc\n".to_vec());
}

#[test]
fn column_resets_after_newline() {
    let r = scan_and_filter(b"a\xff\n\xffb\n");
    assert_eq!(r.non_ascii_positions, vec![(1, 2), (2, 1)]);
    assert_eq!(r.filtered, b"a\nb\n".to_vec());
}

#[test]
fn watermark_line_is_not_byte_scanned() {
    // the line matches the star pattern and also holds a non-ASCII byte:
    // the whole line is dropped and the byte is neither counted nor kept
    let r = scan_and_filter(b"*** \xff\nok\n");
    assert_eq!(r.watermark_hits.len(), 1);
    assert_eq!(r.watermark_hits[0].line, 1);
    assert!(r.non_ascii_positions.is_empty());
    assert!(r.removed_bytes.is_empty());
    assert_eq!(r.filtered, b"\nok\n".to_vec());
}

#[test]
fn rescanning_filtered_output_is_quiet() {
    let first = scan_and_filter(b"caf\xc3\xa9\n=====\nend");
    let second = scan_and_filter(&first.filtered);
    assert!(second.non_ascii_positions.is_empty());
    assert!(second.watermark_hits.is_empty());
    assert_eq!(second.filtered, first.filtered);
}

#[test]
fn position_count_matches_removed_count() {
    let r = scan_and_filter(b"\xf0\x9f\x98\x80 a\nb\xc2\xa0c");
    assert_eq!(r.non_ascii_positions.len(), r.removed_bytes.len());
    assert_eq!(r.removed_bytes, vec![0xf0, 0x9f, 0x98, 0x80, 0xc2, 0xa0]);
    assert_eq!(
        r.non_ascii_positions,
        vec![(1, 1), (1, 2), (1, 3), (1, 4), (2, 2), (2, 3)]
    );
}

#[test]
fn line_count_is_preserved() {
    let data = b"one\n===\ntw\xffo\n";
    let r = scan_and_filter(data);
    let lines_in = data.split(|&b| b == b'\n').count() - 1; // terminated input
    let lines_out = r.filtered.split(|&b| b == b'\n').count() - 1;
    assert_eq!(lines_in, lines_out);
    assert_eq!(r.filtered, b"one\n\ntwo\n".to_vec());
}

#[test]
fn crlf_line_keeps_carriage_return() {
    // splitting is on the line feed alone; a carriage return is an
    // ordinary ASCII byte of its line
    let r = scan_and_filter(b"ab\r\ncd\n");
    assert_eq!(r.filtered, b"ab\r\ncd\n".to_vec());
    assert!(r.non_ascii_positions.is_empty());
}
