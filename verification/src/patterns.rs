//! The watermark pattern matcher: a fixed, ordered set of line-level
//! detectors for decorative separator and tag-comment lines. A line that
//! matches any pattern is dropped wholesale by the scan engine.
use vstd::prelude::*;

verus! {

pub const STAR: u8 = 42;
pub const EQUALS: u8 = 61;
pub const SLASH: u8 = 47;
pub const DASH: u8 = 45;

/// The number of patterns in the fixed set.
pub const PATTERN_COUNT: usize = 4;

/// ASCII whitespace, as allowed between `//` and the dash run.
pub open spec fn is_pattern_space(b: u8) -> bool {
    b == 32 || b == 9 || b == 10 || b == 11 || b == 12 || b == 13
}

/// Three consecutive occurrences of byte `c` start at index `i`.
pub open spec fn run3_at(l: Seq<u8>, c: u8, i: int) -> bool {
    &&& 0 <= i
    &&& i + 3 <= l.len()
    &&& l[i] == c
    &&& l[i + 1] == c
    &&& l[i + 2] == c
}

/// After the `//` that starts at `i`, a run of whitespace ends at `j`,
/// where two dashes follow.
pub open spec fn dash_tail_at(l: Seq<u8>, i: int, j: int) -> bool {
    &&& i + 2 <= j
    &&& j + 2 <= l.len()
    &&& forall|m: int| i + 2 <= m < j ==> is_pattern_space(#[trigger] l[m])
    &&& l[j] == DASH
    &&& l[j + 1] == DASH
}

/// `//`, optional whitespace, then two or more dashes, starting at `i`.
pub open spec fn slash_dash_at(l: Seq<u8>, i: int) -> bool {
    &&& 0 <= i
    &&& i + 2 <= l.len()
    &&& l[i] == SLASH
    &&& l[i + 1] == SLASH
    &&& exists|j: int| dash_tail_at(l, i, j)
}

/// Pattern `k` of the fixed set matches starting at index `i`.
pub open spec fn pattern_at(l: Seq<u8>, k: int, i: int) -> bool {
    if k == 0 {
        run3_at(l, STAR, i)
    } else if k == 1 {
        run3_at(l, EQUALS, i)
    } else if k == 2 {
        run3_at(l, SLASH, i)
    } else {
        slash_dash_at(l, i)
    }
}

/// Pattern `k` matches somewhere in the line.
pub open spec fn pattern_matches(l: Seq<u8>, k: int) -> bool {
    exists|i: int| pattern_at(l, k, i)
}

/// The line is a watermark line: some pattern of the set matches it.
pub open spec fn is_watermark(l: Seq<u8>) -> bool {
    exists|k: int| 0 <= k < 4 && #[trigger] pattern_matches(l, k)
}

/// The first pattern, in evaluation order, that matches the line.
/// Meaningful only when `is_watermark(l)` holds.
pub open spec fn watermark_kind(l: Seq<u8>) -> int {
    if pattern_matches(l, 0) {
        0
    } else if pattern_matches(l, 1) {
        1
    } else if pattern_matches(l, 2) {
        2
    } else {
        3
    }
}

/// The least index at or after `i` where pattern `k` matches; `l.len()`
/// when it matches nowhere at or after `i`.
pub open spec fn first_match_from(l: Seq<u8>, k: int, i: int) -> int
    decreases l.len() - i when 0 <= i <= l.len()
{
    if i >= l.len() {
        l.len() as int
    } else if pattern_at(l, k, i) {
        i
    } else {
        first_match_from(l, k, i + 1)
    }
}

/// The 0-based index at which the winning pattern first matches.
pub open spec fn watermark_start(l: Seq<u8>) -> int {
    first_match_from(l, watermark_kind(l), 0)
}

/// The label under which pattern `k` is reported.
pub open spec fn pattern_label(k: int) -> Seq<char> {
    if k == 0 {
        "\\*{3,}"@
    } else if k == 1 {
        "===+"@
    } else if k == 2 {
        "///+"@
    } else {
        "//\\s*--+"@
    }
}

/// The label under which pattern `k` is reported.
pub fn pattern_label_str(k: usize) -> (r: String)
    requires
        k < 4,
    ensures
        r@ == pattern_label(k as int),
{
    if k == 0 {
        "\\*{3,}".to_owned()
    } else if k == 1 {
        "===+".to_owned()
    } else if k == 2 {
        "///+".to_owned()
    } else {
        "//\\s*--+".to_owned()
    }
}

/// A found match of pattern `k` at `i`, with none earlier, is the least
/// match index.
proof fn lemma_first_match_from(l: Seq<u8>, k: int, i: int, j: int)
    requires
        0 <= j <= i,
        pattern_at(l, k, i),
        forall|m: int| j <= m < i ==> !pattern_at(l, k, m),
    ensures
        first_match_from(l, k, j) == i,
    decreases i - j,
{
    assert(i < l.len());
    if j < i {
        lemma_first_match_from(l, k, i, j + 1);
    }
}

fn is_space_byte(b: u8) -> (r: bool)
    ensures
        r == is_pattern_space(b),
{
    b == 32 || b == 9 || b == 10 || b == 11 || b == 12 || b == 13
}

/// Find the least index at which three consecutive bytes `c` occur.
fn find_run3(line: &[u8], c: u8) -> (r: Option<usize>)
    ensures
        match r {
            Some(i) => run3_at(line@, c, i as int) && forall|j: int|
                0 <= j < i ==> !run3_at(line@, c, j),
            None => forall|j: int| !run3_at(line@, c, j),
        },
{
    if line.len() < 3 {
        return None;
    }
    let mut i: usize = 0;
    while i < line.len() - 2
        invariant
            line@.len() >= 3,
            i <= line@.len() - 2,
            forall|j: int| 0 <= j < i ==> !run3_at(line@, c, j),
        decreases line@.len() - i,
    {
        if line[i] == c && line[i + 1] == c && line[i + 2] == c {
            return Some(i);
        }
        i = i + 1;
    }
    None
}

/// Decide whether pattern 3 (`//`, whitespace, two dashes) matches at `i`,
/// given that the two slashes are already known to stand at `i`.
fn dash_tail_check(line: &[u8], i: usize) -> (r: bool)
    requires
        i + 2 <= line@.len(),
        line@[i as int] == SLASH,
        line@[i as int + 1] == SLASH,
    ensures
        r == slash_dash_at(line@, i as int),
{
    let n = line.len();
    let mut j: usize = i + 2;
    while j < n && is_space_byte(line[j])
        invariant
            n == line@.len(),
            i + 2 <= j <= line@.len(),
            forall|m: int| i + 2 <= m < j ==> is_pattern_space(#[trigger] line@[m]),
        decreases line@.len() - j,
    {
        j = j + 1;
    }
    // j is the end of the greedy whitespace run
    if j < n - 1 && line[j] == DASH && line[j + 1] == DASH {
        assert(dash_tail_at(line@, i as int, j as int));
        true
    } else {
        assert forall|j2: int| !dash_tail_at(line@, i as int, j2) by {
            if dash_tail_at(line@, i as int, j2) {
                if j2 < j {
                    assert(is_pattern_space(line@[j2]));
                } else if j2 > j {
                    assert(is_pattern_space(line@[j as int]));
                }
            }
        }
        false
    }
}

/// Find the least index at which the slash-dash pattern matches.
fn find_slash_dash(line: &[u8]) -> (r: Option<usize>)
    ensures
        match r {
            Some(i) => slash_dash_at(line@, i as int) && forall|j: int|
                0 <= j < i ==> !slash_dash_at(line@, j),
            None => forall|j: int| !slash_dash_at(line@, j),
        },
{
    if line.len() < 2 {
        return None;
    }
    let mut i: usize = 0;
    while i < line.len() - 1
        invariant
            line@.len() >= 2,
            i <= line@.len() - 1,
            forall|j: int| 0 <= j < i ==> !slash_dash_at(line@, j),
        decreases line@.len() - i,
    {
        if line[i] == SLASH && line[i + 1] == SLASH {
            if dash_tail_check(line, i) {
                return Some(i);
            }
        }
        i = i + 1;
    }
    None
}

/// Find the winning pattern and the 0-based index of its first match:
/// patterns are tried in order, and the first that matches anywhere wins.
pub fn find_watermark(line: &[u8]) -> (r: Option<(usize, usize)>)
    ensures
        r is Some <==> is_watermark(line@),
        match r {
            Some((k, i)) => k < 4 && k == watermark_kind(line@) && i == watermark_start(line@)
                && pattern_at(line@, k as int, i as int),
            None => true,
        },
{
    let r0 = find_run3(line, STAR);
    match r0 {
        Some(i) => {
            proof {
                assert(pattern_at(line@, 0, i as int));
                assert(pattern_matches(line@, 0));
                assert(forall|j: int| 0 <= j < i ==> !pattern_at(line@, 0, j));
                assert(forall|j: int| j < 0 ==> !pattern_at(line@, 0, j));
                lemma_first_match_from(line@, 0, i as int, 0);
            }
            return Some((0, i));
        },
        None => {
            assert(forall|j: int| !pattern_at(line@, 0, j));
            assert(!pattern_matches(line@, 0));
        },
    }
    let r1 = find_run3(line, EQUALS);
    match r1 {
        Some(i) => {
            proof {
                assert(pattern_at(line@, 1, i as int));
                assert(pattern_matches(line@, 1));
                assert(forall|j: int| 0 <= j < i ==> !pattern_at(line@, 1, j));
                lemma_first_match_from(line@, 1, i as int, 0);
            }
            return Some((1, i));
        },
        None => {
            assert(forall|j: int| !pattern_at(line@, 1, j));
            assert(!pattern_matches(line@, 1));
        },
    }
    let r2 = find_run3(line, SLASH);
    match r2 {
        Some(i) => {
            proof {
                assert(pattern_at(line@, 2, i as int));
                assert(pattern_matches(line@, 2));
                assert(forall|j: int| 0 <= j < i ==> !pattern_at(line@, 2, j));
                lemma_first_match_from(line@, 2, i as int, 0);
            }
            return Some((2, i));
        },
        None => {
            assert(forall|j: int| !pattern_at(line@, 2, j));
            assert(!pattern_matches(line@, 2));
        },
    }
    let r3 = find_slash_dash(line);
    match r3 {
        Some(i) => {
            proof {
                assert(pattern_at(line@, 3, i as int));
                assert(pattern_matches(line@, 3));
                assert(is_watermark(line@));
                assert(forall|j: int| 0 <= j < i ==> !pattern_at(line@, 3, j));
                lemma_first_match_from(line@, 3, i as int, 0);
            }
            Some((3, i))
        },
        None => {
            proof {
                assert(forall|j: int| !pattern_at(line@, 3, j));
                assert(!pattern_matches(line@, 3));
                assert forall|k: int| 0 <= k < 4 implies !(#[trigger] pattern_matches(line@, k)) by {
                    assert(k == 0 || k == 1 || k == 2 || k == 3);
                };
                assert(!is_watermark(line@));
            }
            None
        },
    }
}

/// Decide whether the line matches some watermark pattern of the fixed set.
pub fn search_watermark_patterns(line: &[u8]) -> (r: bool)
    ensures
        r == is_watermark(line@),
{
    find_watermark(line).is_some()
}

} // verus!
