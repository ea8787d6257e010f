//! A source-file sanitizer: one pass over a file's raw bytes finds and
//! removes bytes outside the 7-bit ASCII range and whole lines that match
//! a fixed set of watermark patterns, reports the line and column of
//! everything removed, and decides by fingerprint comparison whether the
//! filtered bytes must replace the file.
pub mod laws;
pub mod patterns;
pub mod rewrite;
pub mod scan;

use vstd::prelude::*;

verus! {

/// A byte is ASCII when it fits in seven bits.
pub open spec fn is_ascii_byte(b: u8) -> bool {
    b <= 127
}

/// Every byte of the sequence is ASCII.
pub open spec fn ascii_only(s: Seq<u8>) -> bool {
    forall|i: int| 0 <= i < s.len() ==> is_ascii_byte(#[trigger] s[i])
}

} // verus!
