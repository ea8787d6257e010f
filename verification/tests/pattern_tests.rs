use sanitizer::patterns::{find_watermark, pattern_label_str, search_watermark_patterns};

#[test]
fn star_runs_need_three() {
    assert!(search_watermark_patterns(b"***"));
    assert!(search_watermark_patterns(b"x *****"));
    assert!(!search_watermark_patterns(b"**"));
    assert!(!search_watermark_patterns(b"*x*x*"));
}

#[test]
fn equals_runs_need_three() {
    assert!(search_watermark_patterns(b"==="));
    assert!(search_watermark_patterns(b"a ====== b"));
    assert!(!search_watermark_patterns(b"a == b"));
}

#[test]
fn slash_runs_need_three() {
    assert!(search_watermark_patterns(b"/// doc"));
    assert!(search_watermark_patterns(b"////"));
    assert!(!search_watermark_patterns(b"// plain comment"));
}

#[test]
fn slash_dash_allows_whitespace() {
    assert!(search_watermark_patterns(b"//--"));
    assert!(search_watermark_patterns(b"// --"));
    assert!(search_watermark_patterns(b"//  \t --- separator"));
    assert!(!search_watermark_patterns(b"// -"));
    assert!(!search_watermark_patterns(b"/ --"));
    assert!(!search_watermark_patterns(b"- - -"));
}

#[test]
fn empty_and_plain_lines_match_nothing() {
    assert!(!search_watermark_patterns(b""));
    assert!(!search_watermark_patterns(b"fn main() {}"));
}

#[test]
fn first_pattern_in_order_wins() {
    // three slashes satisfy the slash-run pattern before the slash-dash one
    assert_eq!(find_watermark(b"///---"), Some((2, 0)));
    // only two slashes: the slash-dash pattern is the one that matches
    assert_eq!(find_watermark(b"//---"), Some((3, 0)));
    // stars are tried before equals signs
    assert_eq!(find_watermark(b"=== ***"), Some((0, 4)));
}

#[test]
fn match_index_is_leftmost() {
    assert_eq!(find_watermark(b"=a==="), Some((1, 2)));
    assert_eq!(find_watermark(b"ab***cd***"), Some((0, 2)));
    assert_eq!(find_watermark(b"x // --"), Some((3, 2)));
    assert_eq!(find_watermark(b"no match here"), None);
}

#[test]
fn labels_name_the_patterns() {
    assert_eq!(pattern_label_str(0), "\\*{3,}");
    assert_eq!(pattern_label_str(1), "===+");
    assert_eq!(pattern_label_str(2), "///+");
    assert_eq!(pattern_label_str(3), "//\\s*--+");
}
