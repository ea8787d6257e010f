//! The rewrite decision: the original and the filtered bytes are
//! fingerprinted, and a write is due only when the fingerprints differ.
//! An optional guard skips the write when nothing but whitespace would
//! remain on disk.
use vstd::prelude::*;

verus! {

/// The hex digest that the SHA-256 fingerprint assigns to a byte
/// sequence; a function of the bytes alone.
pub uninterp spec fn sha256_of(b: Seq<u8>) -> Seq<char>;

/// Relies on sha256::digest: the SHA-256 digest of the input bytes as a
/// hex string, a deterministic function of the bytes alone.
#[verifier::external_body]
fn fingerprint(data: &[u8]) -> (r: String)
    ensures
        r@ == sha256_of(data@),
{
    sha256::digest(data)
}

/// ASCII whitespace, as the write guard counts it: space, tab, line
/// feed, form feed, carriage return.
pub open spec fn is_ascii_whitespace(b: u8) -> bool {
    b == 32 || b == 9 || b == 10 || b == 12 || b == 13
}

/// Some byte of the sequence is not ASCII whitespace.
pub open spec fn has_non_whitespace(s: Seq<u8>) -> bool {
    exists|i: int| 0 <= i < s.len() && !is_ascii_whitespace(#[trigger] s[i])
}

/// Decide whether the bytes hold anything besides ASCII whitespace.
pub fn contains_non_whitespace(data: &[u8]) -> (r: bool)
    ensures
        r == has_non_whitespace(data@),
{
    let n = data.len();
    let mut i: usize = 0;
    while i < n
        invariant
            n == data@.len(),
            i <= n,
            forall|m: int| 0 <= m < i ==> is_ascii_whitespace(#[trigger] data@[m]),
        decreases n - i,
    {
        let b = data[i];
        if !(b == 32 || b == 9 || b == 10 || b == 12 || b == 13) {
            return true;
        }
        i = i + 1;
    }
    false
}

/// What the rewrite decision reports for one file.
pub struct RewriteDecision {
    /// Fingerprint of the bytes as read.
    pub original_digest: String,
    /// Fingerprint of the scan's filtered output.
    pub filtered_digest: String,
    /// Whether the filtered bytes must replace the file's contents.
    pub write_required: bool,
}

/// Fingerprint the original and the filtered bytes and decide whether a
/// rewrite is due: the fingerprints differ and, when the whitespace-only
/// guard is on, something besides whitespace would remain.
pub fn rewrite_decision(original: &[u8], filtered: &[u8], skip_whitespace_only: bool) -> (r:
    RewriteDecision)
    ensures
        r.original_digest@ == sha256_of(original@),
        r.filtered_digest@ == sha256_of(filtered@),
        r.write_required == (sha256_of(original@) != sha256_of(filtered@)
            && (!skip_whitespace_only || has_non_whitespace(filtered@))),
{
    let original_digest = fingerprint(original);
    let filtered_digest = fingerprint(filtered);
    let same = original_digest.eq(&filtered_digest);
    let write_required = !same && (!skip_whitespace_only || contains_non_whitespace(filtered));
    RewriteDecision { original_digest, filtered_digest, write_required }
}

} // verus!
