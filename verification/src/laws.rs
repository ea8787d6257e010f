//! The engine's laws: what holds of every scan, proved once over the
//! mathematical model that `scan_and_filter`'s contract pins down.
use vstd::prelude::*;

use crate::{ascii_only, is_ascii_byte};
use crate::patterns::is_watermark;
use crate::scan::{
    ascii_kept, filtered_of_lines, first_nl, hits_of_lines, lemma_first_nl_is, line_filtered,
    line_positions, lines_of, nonascii_cols, nonascii_removed, positions_of_lines,
    removed_of_lines, spec_filtered, spec_hits, spec_positions, spec_removed, NEWLINE,
};

verus! {

// ---- per-line helpers ----

/// The kept bytes of a line are all ASCII.
proof fn lemma_ascii_kept_ascii(l: Seq<u8>)
    ensures
        ascii_only(ascii_kept(l)),
    decreases l.len(),
{
    if l.len() > 0 {
        lemma_ascii_kept_ascii(l.drop_last());
    }
}

/// Filtering keeps a line of ASCII bytes as it is.
proof fn lemma_ascii_kept_identity(l: Seq<u8>)
    requires
        ascii_only(l),
    ensures
        ascii_kept(l) == l,
    decreases l.len(),
{
    if l.len() > 0 {
        assert(ascii_only(l.drop_last()));
        lemma_ascii_kept_identity(l.drop_last());
        assert(ascii_kept(l) =~= l);
    } else {
        assert(ascii_kept(l) =~= l);
    }
}

/// A line of ASCII bytes has nothing to remove.
proof fn lemma_ascii_nothing_removed(l: Seq<u8>)
    requires
        ascii_only(l),
    ensures
        nonascii_cols(l) == Seq::<int>::empty(),
        nonascii_removed(l) == Seq::<u8>::empty(),
    decreases l.len(),
{
    if l.len() > 0 {
        assert(ascii_only(l.drop_last()));
        lemma_ascii_nothing_removed(l.drop_last());
    }
}

/// A line records as many positions as it removes bytes.
proof fn lemma_line_counts_agree(l: Seq<u8>)
    ensures
        nonascii_cols(l).len() == nonascii_removed(l).len(),
    decreases l.len(),
{
    if l.len() > 0 {
        lemma_line_counts_agree(l.drop_last());
    }
}

/// Filtering introduces no newline byte into a line's kept bytes.
proof fn lemma_ascii_kept_no_newline(l: Seq<u8>)
    requires
        forall|j: int| 0 <= j < l.len() ==> #[trigger] l[j] != NEWLINE,
    ensures
        forall|j: int| 0 <= j < ascii_kept(l).len() ==> #[trigger] ascii_kept(l)[j] != NEWLINE,
    decreases l.len(),
{
    if l.len() > 0 {
        assert(forall|j: int| 0 <= j < l.drop_last().len() ==> #[trigger] l.drop_last()[j]
            != NEWLINE);
        lemma_ascii_kept_no_newline(l.drop_last());
        let p = ascii_kept(l.drop_last());
        assert forall|j: int| 0 <= j < ascii_kept(l).len() implies #[trigger] ascii_kept(l)[j]
            != NEWLINE by {
            if is_ascii_byte(l.last()) {
                assert(ascii_kept(l) == p.push(l.last()));
                if j < p.len() {
                    assert(ascii_kept(l)[j] == p[j]);
                } else {
                    assert(ascii_kept(l)[j] == l.last());
                    assert(l[l.len() - 1] != NEWLINE);
                }
            } else {
                assert(ascii_kept(l) == p);
            }
        }
    }
}

// ---- law: ASCII purity ----

proof fn lemma_filtered_of_lines_ascii(ls: Seq<Seq<u8>>)
    ensures
        ascii_only(filtered_of_lines(ls)),
    decreases ls.len(),
{
    if ls.len() > 0 {
        lemma_ascii_kept_ascii(ls.first());
        lemma_filtered_of_lines_ascii(ls.drop_first());
    }
}

/// Law: every byte of the filtered output is ASCII.
pub proof fn lemma_ascii_purity(b: Seq<u8>)
    ensures
        ascii_only(spec_filtered(b)),
{
    lemma_filtered_of_lines_ascii(lines_of(b));
}

// ---- law: position and byte counts agree ----

proof fn lemma_counts_of_lines(ls: Seq<Seq<u8>>, first_no: int)
    ensures
        positions_of_lines(ls, first_no).len() == removed_of_lines(ls).len(),
    decreases ls.len(),
{
    if ls.len() > 0 {
        lemma_line_counts_agree(ls.first());
        lemma_counts_of_lines(ls.drop_first(), first_no + 1);
    }
}

/// Law: one recorded position per removed byte.
pub proof fn lemma_position_count(b: Seq<u8>)
    ensures
        spec_positions(b).len() == spec_removed(b).len(),
{
    lemma_counts_of_lines(lines_of(b), 1);
}

// ---- rescanning the filtered output ----

/// The filtered view of each line of a list.
pub open spec fn filtered_lines(ls: Seq<Seq<u8>>) -> Seq<Seq<u8>> {
    ls.map_values(|l: Seq<u8>| line_filtered(l))
}

/// Splitting the filtered output back into lines gives exactly the
/// filtered view of each original line: the terminator closing each line
/// is the only newline in the output.
proof fn lemma_rescan_lines(ls: Seq<Seq<u8>>)
    requires
        forall|i: int, j: int|
            0 <= i < ls.len() && 0 <= j < ls[i].len() ==> #[trigger] ls[i][j] != NEWLINE,
    ensures
        lines_of(filtered_of_lines(ls)) == filtered_lines(ls),
    decreases ls.len(),
{
    if ls.len() == 0 {
        assert(filtered_lines(ls) =~= Seq::<Seq<u8>>::empty());
    } else {
        let first = ls.first();
        let lf = line_filtered(first);
        let rest = ls.drop_first();
        let restf = filtered_of_lines(rest);
        let f = filtered_of_lines(ls);
        assert(forall|j: int| 0 <= j < first.len() ==> #[trigger] first[j] != NEWLINE);
        if !is_watermark(first) {
            lemma_ascii_kept_no_newline(first);
        }
        assert(forall|j: int| 0 <= j < lf.len() ==> #[trigger] lf[j] != NEWLINE);
        assert(f == lf + seq![NEWLINE] + restf);
        assert forall|i: int| 0 <= i < lf.len() implies f[i] != NEWLINE by {
            assert(f[i] == lf[i]);
        }
        assert(f[lf.len() as int] == NEWLINE);
        lemma_first_nl_is(f, lf.len() as int);
        assert(first_nl(f) < f.len());
        assert(lines_of(f) == seq![f.take(lf.len() as int)] + lines_of(
            f.skip(lf.len() as int + 1),
        ));
        assert(f.take(lf.len() as int) =~= lf);
        assert(f.skip(lf.len() as int + 1) =~= restf);
        assert forall|i: int, j: int|
            0 <= i < rest.len() && 0 <= j < rest[i].len() implies #[trigger] rest[i][j]
            != NEWLINE by {
            assert(rest[i] == ls[i + 1]);
        }
        lemma_rescan_lines(rest);
        assert(filtered_lines(ls) =~= seq![lf] + filtered_lines(rest));
        assert(lines_of(f) =~= filtered_lines(ls));
    }
}

/// Law: filtering preserves the number of terminator-delimited lines;
/// a watermark line becomes an empty line, not a missing one, so line
/// numbers reported against the original file stay valid.
pub proof fn lemma_line_count_preserved(b: Seq<u8>)
    ensures
        lines_of(spec_filtered(b)).len() == lines_of(b).len(),
{
    crate::scan::lemma_lines_no_newline(b);
    lemma_rescan_lines(lines_of(b));
}

proof fn lemma_ascii_lines_nothing_removed(ls: Seq<Seq<u8>>, first_no: int)
    requires
        forall|i: int| 0 <= i < ls.len() ==> ascii_only(#[trigger] ls[i]),
    ensures
        positions_of_lines(ls, first_no) == Seq::<(int, int)>::empty(),
        removed_of_lines(ls) == Seq::<u8>::empty(),
    decreases ls.len(),
{
    if ls.len() > 0 {
        if !is_watermark(ls.first()) {
            lemma_ascii_nothing_removed(ls.first());
            assert(crate::scan::cols_positions(nonascii_cols(ls.first()), first_no)
                =~= Seq::<(int, int)>::empty());
        }
        assert(forall|i: int| 0 <= i < ls.drop_first().len() ==> ascii_only(
            #[trigger] ls.drop_first()[i],
        ));
        lemma_ascii_lines_nothing_removed(ls.drop_first(), first_no + 1);
        assert(positions_of_lines(ls, first_no) =~= Seq::<(int, int)>::empty());
        assert(removed_of_lines(ls) =~= Seq::<u8>::empty());
    }
}

/// Law: rescanning the filtered output finds no non-ASCII byte, for
/// every input.
pub proof fn lemma_rescan_finds_no_nonascii(b: Seq<u8>)
    ensures
        spec_positions(spec_filtered(b)) == Seq::<(int, int)>::empty(),
        spec_removed(spec_filtered(b)) == Seq::<u8>::empty(),
{
    crate::scan::lemma_lines_no_newline(b);
    lemma_rescan_lines(lines_of(b));
    let fl = filtered_lines(lines_of(b));
    assert forall|i: int| 0 <= i < fl.len() implies ascii_only(#[trigger] fl[i]) by {
        assert(fl[i] == line_filtered(lines_of(b)[i]));
        lemma_ascii_kept_ascii(lines_of(b)[i]);
    }
    lemma_ascii_lines_nothing_removed(fl, 1);
}

// ---- idempotence ----

proof fn lemma_no_watermark_lines_no_hits(ls: Seq<Seq<u8>>, first_no: int)
    requires
        forall|i: int| 0 <= i < ls.len() ==> !is_watermark(#[trigger] ls[i]),
    ensures
        hits_of_lines(ls, first_no) == Seq::<(int, int, Seq<char>)>::empty(),
    decreases ls.len(),
{
    if ls.len() > 0 {
        assert(forall|i: int| 0 <= i < ls.drop_first().len() ==> !is_watermark(
            #[trigger] ls.drop_first()[i],
        ));
        lemma_no_watermark_lines_no_hits(ls.drop_first(), first_no + 1);
        assert(hits_of_lines(ls, first_no) =~= Seq::<(int, int, Seq<char>)>::empty());
    }
}

/// Filtering the already-filtered lines changes nothing, when none of
/// them is a watermark line.
proof fn lemma_refilter_lines(ls: Seq<Seq<u8>>)
    requires
        forall|i: int| 0 <= i < ls.len() ==> !is_watermark(#[trigger] line_filtered(ls[i])),
    ensures
        filtered_of_lines(filtered_lines(ls)) == filtered_of_lines(ls),
    decreases ls.len(),
{
    if ls.len() == 0 {
        assert(filtered_lines(ls) =~= ls);
    } else {
        let first = ls.first();
        let m = line_filtered(first);
        assert(!is_watermark(m));
        if is_watermark(first) {
            assert(m == Seq::<u8>::empty());
        } else {
            lemma_ascii_kept_ascii(first);
        }
        assert(ascii_only(m));
        lemma_ascii_kept_identity(m);
        assert(line_filtered(m) == m);
        assert forall|i: int| 0 <= i < ls.drop_first().len() implies !is_watermark(
            #[trigger] line_filtered(ls.drop_first()[i]),
        ) by {
            assert(ls.drop_first()[i] == ls[i + 1]);
        }
        lemma_refilter_lines(ls.drop_first());
        assert(filtered_lines(ls).first() == m);
        assert(filtered_lines(ls).drop_first() =~= filtered_lines(ls.drop_first()));
        assert(filtered_of_lines(filtered_lines(ls)) == line_filtered(m) + seq![NEWLINE]
            + filtered_of_lines(filtered_lines(ls).drop_first()));
        assert(filtered_of_lines(filtered_lines(ls)) == filtered_of_lines(ls));
    }
}

/// Law (idempotence): rescanning the filtered output reports nothing
/// and changes nothing, provided that removing a line's non-ASCII bytes
/// does not itself create a watermark line. (Filtering `**\xff*` leaves
/// `***`, which a rescan would drop: inputs with such a line are the one
/// family excluded, and on them a second scan does report a watermark.)
pub proof fn lemma_idempotence(b: Seq<u8>)
    requires
        forall|i: int| 0 <= i < lines_of(b).len() ==> !is_watermark(
            #[trigger] line_filtered(lines_of(b)[i]),
        ),
    ensures
        spec_filtered(spec_filtered(b)) == spec_filtered(b),
        spec_positions(spec_filtered(b)) == Seq::<(int, int)>::empty(),
        spec_removed(spec_filtered(b)) == Seq::<u8>::empty(),
        spec_hits(spec_filtered(b)) == Seq::<(int, int, Seq<char>)>::empty(),
{
    crate::scan::lemma_lines_no_newline(b);
    lemma_rescan_lines(lines_of(b));
    lemma_rescan_finds_no_nonascii(b);
    let fl = filtered_lines(lines_of(b));
    assert forall|i: int| 0 <= i < fl.len() implies !is_watermark(#[trigger] fl[i]) by {
        assert(fl[i] == line_filtered(lines_of(b)[i]));
    }
    lemma_no_watermark_lines_no_hits(fl, 1);
    lemma_refilter_lines(lines_of(b));
}

// ---- where positions point ----

proof fn lemma_nonascii_cols_contains(l: Seq<u8>, c: int)
    ensures
        nonascii_cols(l).contains(c) <==> (1 <= c <= l.len() && !is_ascii_byte(l[c - 1])),
    decreases l.len(),
{
    broadcast use vstd::seq_lib::lemma_seq_contains_after_push;
    broadcast use vstd::seq_lib::lemma_seq_empty_contains_nothing;

    if l.len() > 0 {
        lemma_nonascii_cols_contains(l.drop_last(), c);
        if 1 <= c <= l.len() - 1 {
            assert(l.drop_last()[c - 1] == l[c - 1]);
        }
    }
}

proof fn lemma_cols_positions_contains(cols: Seq<int>, no: int, n: int, c: int)
    ensures
        crate::scan::cols_positions(cols, no).contains((n, c)) <==> (n == no && cols.contains(c)),
{
    let ps = crate::scan::cols_positions(cols, no);
    if n == no && cols.contains(c) {
        let i = choose|i: int| 0 <= i < cols.len() && cols[i] == c;
        assert(ps[i] == (no, c));
        assert(ps.contains((n, c)));
    }
    if ps.contains((n, c)) {
        let i = choose|i: int| 0 <= i < ps.len() && ps[i] == (n, c);
        assert(ps[i] == (no, cols[i]));
        assert(cols.contains(c));
    }
}

proof fn lemma_line_positions_contains(l: Seq<u8>, no: int, n: int, c: int)
    ensures
        line_positions(l, no).contains((n, c)) <==> {
            &&& !is_watermark(l)
            &&& n == no
            &&& 1 <= c <= l.len()
            &&& !is_ascii_byte(l[c - 1])
        },
{
    broadcast use vstd::seq_lib::lemma_seq_empty_contains_nothing;

    if !is_watermark(l) {
        lemma_nonascii_cols_contains(l, c);
        lemma_cols_positions_contains(nonascii_cols(l), no, n, c);
    }
}

proof fn lemma_positions_of_lines_contains(ls: Seq<Seq<u8>>, first_no: int, n: int, c: int)
    ensures
        positions_of_lines(ls, first_no).contains((n, c)) <==> {
            &&& first_no <= n < first_no + ls.len()
            &&& !is_watermark(ls[n - first_no])
            &&& 1 <= c <= ls[n - first_no].len()
            &&& !is_ascii_byte(ls[n - first_no][c - 1])
        },
    decreases ls.len(),
{
    broadcast use vstd::seq_lib::lemma_seq_concat_contains_all_elements;
    broadcast use vstd::seq_lib::lemma_seq_empty_contains_nothing;

    if ls.len() > 0 {
        lemma_line_positions_contains(ls.first(), first_no, n, c);
        lemma_positions_of_lines_contains(ls.drop_first(), first_no + 1, n, c);
        if first_no + 1 <= n < first_no + ls.len() {
            assert(ls.drop_first()[n - first_no - 1] == ls[n - first_no]);
        }
    }
}

/// Law (column reset): the scan records `(n, c)` exactly when line `n`
/// of the input is not a watermark line and its `c`-th byte, counted
/// from 1 at the start of that line, is non-ASCII. Columns therefore
/// restart at 1 after every terminator.
pub proof fn lemma_positions_exact(b: Seq<u8>, n: int, c: int)
    ensures
        spec_positions(b).contains((n, c)) <==> {
            &&& 1 <= n <= lines_of(b).len()
            &&& !is_watermark(lines_of(b)[n - 1])
            &&& 1 <= c <= lines_of(b)[n - 1].len()
            &&& !is_ascii_byte(lines_of(b)[n - 1][c - 1])
        },
{
    lemma_positions_of_lines_contains(lines_of(b), 1, n, c);
}

/// Law (watermark priority): a line a pattern matches contributes no
/// non-ASCII positions, whatever bytes it holds.
pub proof fn lemma_watermark_priority(b: Seq<u8>, n: int)
    requires
        1 <= n <= lines_of(b).len(),
        is_watermark(lines_of(b)[n - 1]),
    ensures
        forall|c: int| !spec_positions(b).contains((n, c)),
{
    assert forall|c: int| !spec_positions(b).contains((n, c)) by {
        lemma_positions_exact(b, n, c);
    }
}

// ---- clean input passes through ----

proof fn lemma_lines_ascii(b: Seq<u8>)
    requires
        ascii_only(b),
    ensures
        forall|i: int| 0 <= i < lines_of(b).len() ==> ascii_only(#[trigger] lines_of(b)[i]),
    decreases b.len(),
{
    if b.len() > 0 {
        crate::scan::lemma_first_nl_bounds(b);
        let k = first_nl(b);
        if k == b.len() {
            assert(lines_of(b) == seq![b]);
        } else {
            let tail = b.skip(k + 1);
            assert forall|i: int| 0 <= i < tail.len() implies is_ascii_byte(#[trigger] tail[i]) by {
                assert(tail[i] == b[k + 1 + i]);
            }
            lemma_lines_ascii(tail);
            assert forall|i: int| 0 <= i < lines_of(b).len() implies ascii_only(
                #[trigger] lines_of(b)[i],
            ) by {
                if i == 0 {
                    assert(lines_of(b)[0] == b.take(k));
                    assert forall|j: int| 0 <= j < k implies is_ascii_byte(
                        #[trigger] b.take(k)[j],
                    ) by {
                        assert(b.take(k)[j] == b[j]);
                    }
                } else {
                    assert(lines_of(b)[i] == lines_of(tail)[i - 1]);
                }
            }
        }
    }
}

proof fn lemma_clean_join(b: Seq<u8>)
    requires
        ascii_only(b),
        forall|i: int| 0 <= i < lines_of(b).len() ==> !is_watermark(#[trigger] lines_of(b)[i]),
    ensures
        b.len() == 0 ==> spec_filtered(b) == b,
        b.len() > 0 && b.last() == NEWLINE ==> spec_filtered(b) == b,
        b.len() > 0 && b.last() != NEWLINE ==> spec_filtered(b) == b + seq![NEWLINE],
    decreases b.len(),
{
    if b.len() == 0 {
        assert(spec_filtered(b) =~= b);
    } else {
        crate::scan::lemma_first_nl_bounds(b);
        crate::scan::lemma_first_nl_range(b);
        let k = first_nl(b);
        if k == b.len() {
            assert(lines_of(b) == seq![b]);
            assert(lines_of(b)[0] == b);
            assert(!is_watermark(b));
            lemma_ascii_kept_identity(b);
            assert(lines_of(b).drop_first() =~= Seq::<Seq<u8>>::empty());
            assert(lines_of(b).first() == b);
            assert(filtered_of_lines(lines_of(b)) == line_filtered(b) + seq![NEWLINE]
                + filtered_of_lines(lines_of(b).drop_first()));
            assert(filtered_of_lines(lines_of(b).drop_first()) == Seq::<u8>::empty());
            assert(line_filtered(b) == b);
            assert(spec_filtered(b) =~= b + seq![NEWLINE]);
            assert(b[b.len() - 1] != NEWLINE);
        } else {
            let head = b.take(k);
            let tail = b.skip(k + 1);
            assert(lines_of(b) == seq![head] + lines_of(tail));
            assert(lines_of(b)[0] == head);
            assert(lines_of(b).first() == head);
            assert(lines_of(b).drop_first() =~= lines_of(tail));
            assert forall|i: int| 0 <= i < tail.len() implies is_ascii_byte(#[trigger] tail[i]) by {
                assert(tail[i] == b[k + 1 + i]);
            }
            assert forall|i: int| 0 <= i < lines_of(tail).len() implies !is_watermark(
                #[trigger] lines_of(tail)[i],
            ) by {
                assert(lines_of(tail)[i] == lines_of(b)[i + 1]);
            }
            lemma_clean_join(tail);
            assert(!is_watermark(head));
            assert forall|j: int| 0 <= j < head.len() implies is_ascii_byte(#[trigger] head[j]) by {
                assert(head[j] == b[j]);
            }
            lemma_ascii_kept_identity(head);
            assert(spec_filtered(b) == head + seq![NEWLINE] + spec_filtered(tail));
            assert(b[k] == NEWLINE);
            if tail.len() == 0 {
                assert(spec_filtered(tail) =~= Seq::<u8>::empty());
                assert(spec_filtered(b) =~= b);
                assert(b.last() == NEWLINE);
            } else if tail.last() == NEWLINE {
                assert(spec_filtered(b) =~= b);
                assert(b.last() == NEWLINE);
            } else {
                assert(spec_filtered(b) =~= b + seq![NEWLINE]);
                assert(b.last() == tail.last());
            }
        }
    }
}

/// Law (no-op on clean input): ASCII-only input without watermark lines
/// passes through unchanged, up to the one normalization the scan makes:
/// the final line always receives a terminator. Nothing is reported.
pub proof fn lemma_clean_input_noop(b: Seq<u8>)
    requires
        ascii_only(b),
        forall|i: int| 0 <= i < lines_of(b).len() ==> !is_watermark(#[trigger] lines_of(b)[i]),
    ensures
        b.len() == 0 ==> spec_filtered(b) == b,
        b.len() > 0 && b.last() == NEWLINE ==> spec_filtered(b) == b,
        b.len() > 0 && b.last() != NEWLINE ==> spec_filtered(b) == b + seq![NEWLINE],
        spec_positions(b) == Seq::<(int, int)>::empty(),
        spec_removed(b) == Seq::<u8>::empty(),
        spec_hits(b) == Seq::<(int, int, Seq<char>)>::empty(),
{
    lemma_lines_ascii(b);
    lemma_ascii_lines_nothing_removed(lines_of(b), 1);
    lemma_no_watermark_lines_no_hits(lines_of(b), 1);
    lemma_clean_join(b);
}

} // verus!
