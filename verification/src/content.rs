//! Size-capped content loading: a binary sniff over a small prefix, a
//! whole-file read for small files, and a head-plus-tail splice with a
//! truncation marker for large ones. Opening, reading and seeking are the
//! caller's work; every decision and the splice itself are made here.

use vstd::prelude::*;

verus! {

/// What the permissive decoder yields for these bytes: a pure function
/// of the bytes alone.
pub uninterp spec fn lossy_of(bytes: Seq<u8>) -> Seq<char>;

/// Relies on `String::from_utf8_lossy`: decoding is a pure function of
/// the bytes; invalid sequences are replaced, never fatal.
#[verifier::external_body]
pub fn lossy_decode(bytes: &Vec<u8>) -> (r: String)
    ensures
        r@ == lossy_of(bytes@),
{
    String::from_utf8_lossy(bytes.as_slice()).into_owned()
}

/// Whether the sniffed prefix identifies the file as binary: it holds a
/// NUL byte.
pub fn sniff_is_binary(prefix: &Vec<u8>) -> (r: bool)
    ensures
        r == prefix@.contains(0u8),
{
    let mut i: usize = 0;
    while i < prefix.len()
        invariant
            i <= prefix@.len(),
            forall|k: int| 0 <= k < i ==> prefix@[k] != 0u8,
        decreases prefix.len() - i,
    {
        if prefix[i] == 0 {
            return true;
        }
        i = i + 1;
    }
    false
}

/// The fixed text standing in for identified-binary content.
pub open spec fn binary_sentinel() -> Seq<char> {
    "[binary file omitted]\n"@
}

/// The sentinel handed out instead of binary data.
pub fn binary_file_text() -> (r: String)
    ensures
        r@ == binary_sentinel(),
{
    let v = crate::strutil::str_to_chars("[binary file omitted]\n");
    crate::strutil::chars_to_string(&v)
}

/// How a file's content is to be read, given its sniffed prefix, its
/// total size, and the byte cap.
pub enum LoadPlan {
    /// The prefix held a NUL byte: emit the sentinel, read nothing more.
    Binary,
    /// The file fits the cap: read the rest and decode it all.
    Whole,
    /// Too large: read `head_more` further head bytes, then `tail_len`
    /// bytes starting at `tail_start`, and splice.
    Split { head_more: usize, tail_start: u64, tail_len: usize },
}

/// Decides how to load a file. `sniffed` is the prefix actually read,
/// `len` the file's size in bytes, `max_bytes` the cap.
pub fn plan_load(sniffed: &Vec<u8>, len: u64, max_bytes: usize) -> (r: LoadPlan)
    ensures
        sniffed@.contains(0u8) <==> r is Binary,
        !sniffed@.contains(0u8) && len <= max_bytes as u64 <==> r is Whole,
        match r {
            LoadPlan::Split { head_more, tail_start, tail_len } => {
                &&& len > max_bytes as u64
                &&& head_more as int == if (max_bytes as int) / 2 >= sniffed@.len() {
                    (max_bytes as int) / 2 - sniffed@.len()
                } else {
                    0
                }
                &&& tail_len == max_bytes / 2
                &&& tail_start as int == if len as int >= tail_len as int {
                    len as int - tail_len as int
                } else {
                    0
                }
            },
            _ => true,
        },
{
    if sniff_is_binary(sniffed) {
        LoadPlan::Binary
    } else if len <= max_bytes as u64 {
        LoadPlan::Whole
    } else {
        let half = max_bytes / 2;
        let head_more = if half >= sniffed.len() {
            half - sniffed.len()
        } else {
            0
        };
        let tail_len = half;
        let tail_start = if len >= tail_len as u64 {
            len - tail_len as u64
        } else {
            0
        };
        LoadPlan::Split { head_more, tail_start, tail_len }
    }
}

/// The marker spliced between the kept ends of a large file.
pub open spec fn truncation_marker() -> Seq<char> {
    "\n[... truncated ...]\n"@
}

/// Splices the decoded sniffed prefix, the further head bytes, the
/// truncation marker, and the decoded tail into one bounded text that
/// keeps both structural ends of the file.
pub fn spliced_text(sniffed: &Vec<u8>, head: &Vec<u8>, tail: &Vec<u8>) -> (r: String)
    ensures
        r@ == lossy_of(sniffed@) + lossy_of(head@) + truncation_marker() + lossy_of(tail@),
{
    let a = lossy_decode(sniffed);
    let b = lossy_decode(head);
    let c = lossy_decode(tail);
    let mut out = crate::strutil::str_to_chars(a.as_str());
    let bv = crate::strutil::str_to_chars(b.as_str());
    out.extend_from_slice(bv.as_slice());
    let m = crate::strutil::str_to_chars("\n[... truncated ...]\n");
    out.extend_from_slice(m.as_slice());
    let cv = crate::strutil::str_to_chars(c.as_str());
    out.extend_from_slice(cv.as_slice());
    proof {
        assert(out@ =~= lossy_of(sniffed@) + lossy_of(head@) + truncation_marker() + lossy_of(
            tail@,
        ));
    }
    crate::strutil::chars_to_string(&out)
}

} // verus!
