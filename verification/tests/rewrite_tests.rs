use sanitizer::rewrite::{contains_non_whitespace, rewrite_decision};
use sanitizer::scan::scan_and_filter;

#[test]
fn equal_bytes_need_no_write() {
    let d = rewrite_decision(b"abc\n", b"abc\n", false);
    assert!(!d.write_required);
    assert_eq!(d.original_digest, d.filtered_digest);
}

#[test]
fn changed_bytes_need_a_write() {
    let d = rewrite_decision(b"abc\n", b"abd\n", false);
    assert!(d.write_required);
    assert_ne!(d.original_digest, d.filtered_digest);
}

#[test]
fn digest_matches_the_published_value() {
    // the SHA-256 hex digest of "hello" is a fixed, well-known value
    let d = rewrite_decision(b"hello", b"", false);
    assert_eq!(
        d.original_digest,
        "2cf24dba5fb0a30e26e83b2ac5b9e29e1b161e5c1fa7425e73043362938b9824"
    );
}

#[test]
fn whitespace_guard_skips_the_write() {
    let d = rewrite_decision(b"x \n", b" \n", true);
    assert!(!d.write_required);
    let d = rewrite_decision(b"x \n", b" \n", false);
    assert!(d.write_required);
    let d = rewrite_decision(b"x \n", b" y\n", true);
    assert!(d.write_required);
}

#[test]
fn whitespace_detection() {
    assert!(!contains_non_whitespace(b""));
    assert!(!contains_non_whitespace(b" \t\r\n\x0c"));
    assert!(contains_non_whitespace(b"  a  "));
    assert!(contains_non_whitespace(b"\x0b")); // vertical tab is not on the guard's list
}

#[test]
fn empty_file_triggers_no_write() {
    let r = scan_and_filter(b"");
    let d = rewrite_decision(b"", &r.filtered, false);
    assert_eq!(d.original_digest, d.filtered_digest);
    assert!(!d.write_required);
}
