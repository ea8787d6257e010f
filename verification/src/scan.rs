//! The scan-and-filter engine: one pass over a file's bytes that drops
//! non-ASCII bytes, drops watermark lines (leaving an empty line in their
//! place so that reported line numbers stay valid against the original
//! file), and records where every removal happened.
use vstd::prelude::*;

use crate::is_ascii_byte;
use crate::patterns::{
    is_watermark, pattern_label, pattern_label_str, watermark_kind, watermark_start,
    find_watermark,
};

verus! {

pub const NEWLINE: u8 = 10;

/// Index of the first newline byte, or the length when there is none.
pub open spec fn first_nl(b: Seq<u8>) -> int
    decreases b.len(),
{
    if b.len() == 0 {
        0
    } else if b[0] == NEWLINE {
        0
    } else {
        1 + first_nl(b.skip(1))
    }
}

pub proof fn lemma_first_nl_bounds(b: Seq<u8>)
    ensures
        0 <= first_nl(b) <= b.len(),
    decreases b.len(),
{
    if b.len() > 0 && b[0] != NEWLINE {
        lemma_first_nl_bounds(b.skip(1));
    }
}

/// The index before which no newline stands and at which one stands (or
/// the end) is the first newline index.
pub proof fn lemma_first_nl_is(b: Seq<u8>, k: int)
    requires
        0 <= k <= b.len(),
        forall|i: int| 0 <= i < k ==> b[i] != NEWLINE,
        k < b.len() ==> b[k] == NEWLINE,
    ensures
        first_nl(b) == k,
    decreases k,
{
    if b.len() > 0 && k > 0 {
        assert(b[0] != NEWLINE);
        assert forall|i: int| 0 <= i < k - 1 implies b.skip(1)[i] != NEWLINE by {
            assert(b.skip(1)[i] == b[i + 1]);
        }
        if k - 1 < b.len() - 1 {
            assert(b.skip(1)[k - 1] == b[k]);
        }
        lemma_first_nl_is(b.skip(1), k - 1);
    }
}

/// The newline-delimited lines of a byte sequence, each without its
/// terminator. A nonempty remainder after the last newline is one more
/// line; there is no empty line after a terminating newline.
pub open spec fn lines_of(b: Seq<u8>) -> Seq<Seq<u8>>
    decreases b.len(),
    via lines_of_decreases
{
    if b.len() == 0 {
        Seq::empty()
    } else {
        let k = first_nl(b);
        if k == b.len() {
            seq![b]
        } else {
            seq![b.take(k)] + lines_of(b.skip(k + 1))
        }
    }
}

#[via_fn]
proof fn lines_of_decreases(b: Seq<u8>) {
    lemma_first_nl_bounds(b);
}

/// No line holds a newline byte.
pub proof fn lemma_lines_no_newline(b: Seq<u8>)
    ensures
        forall|i: int, j: int|
            0 <= i < lines_of(b).len() && 0 <= j < lines_of(b)[i].len()
                ==> #[trigger] lines_of(b)[i][j] != NEWLINE,
    decreases b.len(),
{
    if b.len() > 0 {
        lemma_first_nl_bounds(b);
        lemma_first_nl_range(b);
        let k = first_nl(b);
        if k < b.len() {
            lemma_lines_no_newline(b.skip(k + 1));
            assert forall|i: int, j: int|
                0 <= i < lines_of(b).len() && 0 <= j < lines_of(b)[i].len()
                    implies #[trigger] lines_of(b)[i][j] != NEWLINE by {
                if i == 0 {
                    assert(lines_of(b)[0] == b.take(k));
                    assert(b.take(k)[j] == b[j]);
                } else {
                    assert(lines_of(b)[i] == lines_of(b.skip(k + 1))[i - 1]);
                }
            }
        }
    }
}

/// Bytes strictly before the first newline are not newlines.
pub proof fn lemma_first_nl_range(b: Seq<u8>)
    ensures
        forall|i: int| 0 <= i < first_nl(b) ==> b[i] != NEWLINE,
        first_nl(b) < b.len() ==> b[first_nl(b)] == NEWLINE,
    decreases b.len(),
{
    if b.len() > 0 && b[0] != NEWLINE {
        lemma_first_nl_bounds(b.skip(1));
        lemma_first_nl_range(b.skip(1));
        assert forall|i: int| 0 <= i < first_nl(b) implies b[i] != NEWLINE by {
            if i > 0 {
                assert(b.skip(1)[i - 1] == b[i]);
            }
        }
        if first_nl(b) < b.len() {
            assert(b.skip(1)[first_nl(b) - 1] == b[first_nl(b)]);
        }
    }
}

// ---- what one line contributes to the result ----

/// The ASCII bytes of a line, in order.
pub open spec fn ascii_kept(l: Seq<u8>) -> Seq<u8>
    decreases l.len(),
{
    if l.len() == 0 {
        Seq::empty()
    } else {
        let p = ascii_kept(l.drop_last());
        if is_ascii_byte(l.last()) {
            p.push(l.last())
        } else {
            p
        }
    }
}

/// The non-ASCII bytes of a line, in order.
pub open spec fn nonascii_removed(l: Seq<u8>) -> Seq<u8>
    decreases l.len(),
{
    if l.len() == 0 {
        Seq::empty()
    } else {
        let p = nonascii_removed(l.drop_last());
        if is_ascii_byte(l.last()) {
            p
        } else {
            p.push(l.last())
        }
    }
}

/// The 1-based columns of the non-ASCII bytes of a line, in order.
pub open spec fn nonascii_cols(l: Seq<u8>) -> Seq<int>
    decreases l.len(),
{
    if l.len() == 0 {
        Seq::empty()
    } else {
        let p = nonascii_cols(l.drop_last());
        if is_ascii_byte(l.last()) {
            p
        } else {
            p.push(l.len() as int)
        }
    }
}

/// What of the line reaches the filtered output (before its terminator):
/// nothing for a watermark line, its ASCII bytes otherwise.
pub open spec fn line_filtered(l: Seq<u8>) -> Seq<u8> {
    if is_watermark(l) {
        Seq::empty()
    } else {
        ascii_kept(l)
    }
}

/// Columns paired with the line number they belong to.
pub open spec fn cols_positions(cols: Seq<int>, line_no: int) -> Seq<(int, int)> {
    cols.map_values(|c: int| (line_no, c))
}

/// The `(line, column)` entries the line contributes, 1-indexed.
pub open spec fn line_positions(l: Seq<u8>, line_no: int) -> Seq<(int, int)> {
    if is_watermark(l) {
        Seq::empty()
    } else {
        cols_positions(nonascii_cols(l), line_no)
    }
}

/// The removed raw bytes the line contributes.
pub open spec fn line_removed(l: Seq<u8>) -> Seq<u8> {
    if is_watermark(l) {
        Seq::empty()
    } else {
        nonascii_removed(l)
    }
}

/// The watermark report the line contributes: the line number, the
/// 1-based column where the winning pattern first matches, and its label.
pub open spec fn line_hits(l: Seq<u8>, line_no: int) -> Seq<(int, int, Seq<char>)> {
    if is_watermark(l) {
        seq![(line_no, watermark_start(l) + 1, pattern_label(watermark_kind(l)))]
    } else {
        Seq::empty()
    }
}

// ---- folding the lines into the whole result ----

pub open spec fn filtered_of_lines(ls: Seq<Seq<u8>>) -> Seq<u8>
    decreases ls.len(),
{
    if ls.len() == 0 {
        Seq::empty()
    } else {
        line_filtered(ls.first()) + seq![NEWLINE] + filtered_of_lines(ls.drop_first())
    }
}

pub open spec fn positions_of_lines(ls: Seq<Seq<u8>>, first_no: int) -> Seq<(int, int)>
    decreases ls.len(),
{
    if ls.len() == 0 {
        Seq::empty()
    } else {
        line_positions(ls.first(), first_no) + positions_of_lines(ls.drop_first(), first_no + 1)
    }
}

pub open spec fn removed_of_lines(ls: Seq<Seq<u8>>) -> Seq<u8>
    decreases ls.len(),
{
    if ls.len() == 0 {
        Seq::empty()
    } else {
        line_removed(ls.first()) + removed_of_lines(ls.drop_first())
    }
}

pub open spec fn hits_of_lines(ls: Seq<Seq<u8>>, first_no: int) -> Seq<(int, int, Seq<char>)>
    decreases ls.len(),
{
    if ls.len() == 0 {
        Seq::empty()
    } else {
        line_hits(ls.first(), first_no) + hits_of_lines(ls.drop_first(), first_no + 1)
    }
}

// ---- the scan, as a mathematical function of the input bytes ----

/// The filtered output: every line's ASCII bytes (or nothing, for a
/// watermark line), each line closed by a terminator.
pub open spec fn spec_filtered(b: Seq<u8>) -> Seq<u8> {
    filtered_of_lines(lines_of(b))
}

/// The `(line, column)` of every removed non-ASCII byte, in encounter
/// order, both 1-indexed.
pub open spec fn spec_positions(b: Seq<u8>) -> Seq<(int, int)> {
    positions_of_lines(lines_of(b), 1)
}

/// The removed non-ASCII bytes, in encounter order.
pub open spec fn spec_removed(b: Seq<u8>) -> Seq<u8> {
    removed_of_lines(lines_of(b))
}

/// One `(line, column, label)` per watermark line, in line order.
pub open spec fn spec_hits(b: Seq<u8>) -> Seq<(int, int, Seq<char>)> {
    hits_of_lines(lines_of(b), 1)
}

// ---- the engine ----

/// One watermark line found by the scan: where it stood in the original
/// file (both 1-indexed) and the label of the pattern that matched.
pub struct WatermarkHit {
    pub line: usize,
    pub column: usize,
    pub label: String,
}

impl WatermarkHit {
    pub open spec fn model(self) -> (int, int, Seq<char>) {
        (self.line as int, self.column as int, self.label@)
    }
}

pub open spec fn positions_model(ps: Seq<(usize, usize)>) -> Seq<(int, int)> {
    ps.map_values(|p: (usize, usize)| (p.0 as int, p.1 as int))
}

pub open spec fn hits_model(hs: Seq<WatermarkHit>) -> Seq<(int, int, Seq<char>)> {
    hs.map_values(|h: WatermarkHit| h.model())
}

/// Everything one scan pass produces.
pub struct ScanResult {
    /// The input with watermark lines and non-ASCII bytes removed,
    /// every line closed by a terminator.
    pub filtered: Vec<u8>,
    /// `(line, column)` of each removed non-ASCII byte, 1-indexed,
    /// in encounter order.
    pub non_ascii_positions: Vec<(usize, usize)>,
    /// The removed non-ASCII bytes themselves, in encounter order.
    pub removed_bytes: Vec<u8>,
    /// One entry per watermark line, in line order.
    pub watermark_hits: Vec<WatermarkHit>,
}

impl ScanResult {
    pub open spec fn positions(self) -> Seq<(int, int)> {
        positions_model(self.non_ascii_positions@)
    }

    pub open spec fn hits(self) -> Seq<(int, int, Seq<char>)> {
        hits_model(self.watermark_hits@)
    }
}

/// Scan the raw bytes of one file: split them into newline-delimited
/// lines, drop every line a watermark pattern matches (an empty line
/// stands in its place), drop every non-ASCII byte of the other lines,
/// and record the position of everything dropped. Total: no input fails.
pub fn scan_and_filter(data: &[u8]) -> (r: ScanResult)
    ensures
        r.filtered@ == spec_filtered(data@),
        r.positions() == spec_positions(data@),
        r.removed_bytes@ == spec_removed(data@),
        r.hits() == spec_hits(data@),
{
    let n = data.len();
    let mut filtered: Vec<u8> = Vec::new();
    let mut non_ascii_positions: Vec<(usize, usize)> = Vec::new();
    let mut removed_bytes: Vec<u8> = Vec::new();
    let mut watermark_hits: Vec<WatermarkHit> = Vec::new();
    let mut start: usize = 0;
    let mut line_no: usize = 1;

    proof {
        assert(data@.skip(0) =~= data@);
        assert(positions_model(non_ascii_positions@) =~= Seq::<(int, int)>::empty());
        assert(hits_model(watermark_hits@) =~= Seq::<(int, int, Seq<char>)>::empty());
        assert(spec_filtered(data@) =~= filtered@ + filtered_of_lines(lines_of(data@)));
        assert(spec_positions(data@) =~= positions_model(non_ascii_positions@)
            + positions_of_lines(lines_of(data@), 1));
        assert(spec_removed(data@) =~= removed_bytes@ + removed_of_lines(lines_of(data@)));
        assert(spec_hits(data@) =~= hits_model(watermark_hits@) + hits_of_lines(
            lines_of(data@),
            1,
        ));
    }

    while start < n
        invariant
            n == data@.len(),
            start <= n,
            start < n ==> 1 <= line_no <= start + 1,
            spec_filtered(data@) == filtered@ + filtered_of_lines(lines_of(data@.skip(start as int))),
            spec_positions(data@) == positions_model(non_ascii_positions@) + positions_of_lines(
                lines_of(data@.skip(start as int)),
                line_no as int,
            ),
            spec_removed(data@) == removed_bytes@ + removed_of_lines(
                lines_of(data@.skip(start as int)),
            ),
            spec_hits(data@) == hits_model(watermark_hits@) + hits_of_lines(
                lines_of(data@.skip(start as int)),
                line_no as int,
            ),
        decreases n - start,
    {
        let ghost rem = data@.skip(start as int);

        // find the end of the current line
        let mut end = start;
        while end < n && data[end] != NEWLINE
            invariant
                n == data@.len(),
                start <= end <= n,
                forall|m: int| start <= m < end ==> data@[m] != NEWLINE,
            decreases n - end,
        {
            end = end + 1;
        }

        let line = &data[start..end];
        let ghost lseq = line@;

        proof {
            assert forall|i: int| 0 <= i < end - start implies rem[i] != NEWLINE by {
                assert(rem[i] == data@[start + i]);
            }
            if end < n {
                assert(rem[end - start] == data@[end as int]);
            }
            lemma_first_nl_is(rem, end - start);
            assert(lseq =~= rem.take(end - start));
            if end < n {
                assert(lines_of(rem) == seq![rem.take(end - start)] + lines_of(
                    rem.skip(end - start + 1),
                ));
                assert(lines_of(rem).first() == lseq);
                assert(lines_of(rem).drop_first() =~= lines_of(rem.skip(end - start + 1)));
                assert(rem.skip(end - start + 1) =~= data@.skip(end + 1));
            } else {
                assert(lseq =~= rem);
                assert(lines_of(rem) == seq![rem]);
                assert(lines_of(rem).first() == lseq);
                assert(lines_of(rem).drop_first() =~= lines_of(data@.skip(n as int)));
                assert(data@.skip(n as int) =~= Seq::<u8>::empty());
            }
        }

        let ghost filtered0 = filtered@;
        let ghost positions0 = non_ascii_positions@;
        let ghost removed0 = removed_bytes@;
        let ghost hits0 = watermark_hits@;

        match find_watermark(line) {
            Some((k, i)) => {
                // the whole line is dropped; an empty line keeps numbering
                let label = pattern_label_str(k);
                watermark_hits.push(WatermarkHit { line: line_no, column: i + 1, label });
                filtered.push(NEWLINE);
                proof {
                    assert(filtered@ =~= filtered0 + line_filtered(lseq) + seq![NEWLINE]);
                    assert(hits_model(watermark_hits@) =~= hits_model(hits0).push(
                        (line_no as int, (i + 1) as int, pattern_label(k as int)),
                    ));
                    assert(hits_model(watermark_hits@) =~= hits_model(hits0) + line_hits(
                        lseq,
                        line_no as int,
                    ));
                    assert(positions_model(non_ascii_positions@) + line_positions(
                        lseq,
                        line_no as int,
                    ) =~= positions_model(positions0));
                    assert(removed_bytes@ =~= removed0 + line_removed(lseq));
                }
            },
            None => {
                // byte-level pass over the line
                let mut j = start;
                while j < end
                    invariant
                        n == data@.len(),
                        start <= j <= end <= n,
                        lseq == data@.subrange(start as int, end as int),
                        !is_watermark(lseq),
                        filtered@ == filtered0 + ascii_kept(lseq.take(j - start)),
                        positions_model(non_ascii_positions@) == positions_model(positions0)
                            + cols_positions(nonascii_cols(lseq.take(j - start)), line_no as int),
                        removed_bytes@ == removed0 + nonascii_removed(lseq.take(j - start)),
                    decreases end - j,
                {
                    let b = data[j];
                    proof {
                        let t = j - start;
                        assert(lseq.take(t + 1).drop_last() =~= lseq.take(t));
                        assert(lseq.take(t + 1).last() == lseq[t]);
                        assert(lseq[t] == data@[j as int]);
                    }
                    if b <= 127 {
                        filtered.push(b);
                        proof {
                            assert(filtered@ =~= filtered0 + ascii_kept(lseq.take(j - start + 1)));
                        }
                    } else {
                        let ghost ps_before = non_ascii_positions@;
                        non_ascii_positions.push((line_no, j - start + 1));
                        removed_bytes.push(b);
                        proof {
                            let t = j - start;
                            assert(nonascii_cols(lseq.take(t + 1)) =~= nonascii_cols(
                                lseq.take(t),
                            ).push(t + 1));
                            assert(positions_model(non_ascii_positions@) =~= positions_model(
                                ps_before,
                            ).push((line_no as int, (t + 1) as int)));
                            assert(cols_positions(nonascii_cols(lseq.take(t + 1)), line_no as int)
                                =~= cols_positions(
                                nonascii_cols(lseq.take(t)),
                                line_no as int,
                            ).push((line_no as int, t + 1)));
                            assert(positions_model(non_ascii_positions@) =~= positions_model(
                                positions0,
                            ) + cols_positions(nonascii_cols(lseq.take(t + 1)), line_no as int));
                        }
                    }
                    j = j + 1;
                }
                filtered.push(NEWLINE);
                proof {
                    assert(lseq.take(end - start) =~= lseq);
                    assert(filtered@ =~= filtered0 + line_filtered(lseq) + seq![NEWLINE]);
                    assert(positions_model(non_ascii_positions@) =~= positions_model(positions0)
                        + line_positions(lseq, line_no as int));
                    assert(removed_bytes@ =~= removed0 + line_removed(lseq));
                    assert(hits_model(watermark_hits@) =~= hits_model(hits0) + line_hits(
                        lseq,
                        line_no as int,
                    ));
                }
            },
        }

        proof {
            let rest = lines_of(rem).drop_first();
            assert(filtered_of_lines(lines_of(rem)) == line_filtered(lseq) + seq![NEWLINE]
                + filtered_of_lines(rest));
            assert(positions_of_lines(lines_of(rem), line_no as int) == line_positions(
                lseq,
                line_no as int,
            ) + positions_of_lines(rest, line_no + 1));
            assert(removed_of_lines(lines_of(rem)) == line_removed(lseq) + removed_of_lines(rest));
            assert(hits_of_lines(lines_of(rem), line_no as int) == line_hits(lseq, line_no as int)
                + hits_of_lines(rest, line_no + 1));
            assert(spec_filtered(data@) =~= filtered@ + filtered_of_lines(rest));
            assert(spec_positions(data@) =~= positions_model(non_ascii_positions@)
                + positions_of_lines(rest, line_no + 1));
            assert(spec_removed(data@) =~= removed_bytes@ + removed_of_lines(rest));
            assert(spec_hits(data@) =~= hits_model(watermark_hits@) + hits_of_lines(
                rest,
                line_no + 1,
            ));
        }

        if end < n {
            start = end + 1;
        } else {
            start = n;
        }
        if start < n {
            line_no = line_no + 1;
        }
        proof {
            if start == n {
                assert(lines_of(data@.skip(n as int)) =~= Seq::<Seq<u8>>::empty());
                assert(filtered_of_lines(Seq::<Seq<u8>>::empty()) =~= Seq::<u8>::empty());
            }
        }
    }

    proof {
        assert(data@.skip(n as int) =~= Seq::<u8>::empty());
        assert(filtered@ =~= spec_filtered(data@));
        assert(positions_model(non_ascii_positions@) =~= spec_positions(data@));
        assert(removed_bytes@ =~= spec_removed(data@));
        assert(hits_model(watermark_hits@) =~= spec_hits(data@));
    }

    ScanResult { filtered, non_ascii_positions, removed_bytes, watermark_hits }
}

} // verus!
