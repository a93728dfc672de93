//! The reference stream as a string of bytes: where its lines begin and end,
//! what it means for it to be sorted, and what a plain search from its first
//! line to its last finds in it.

use vstd::prelude::*;
use vstd::slice::slice_subrange;
use crate::entry::{entry_count, entry_hash};
use crate::order::{lemma_lex_asymmetric, lemma_lex_transitive, lex_less};
use crate::text::{find_byte, find_byte_from, lemma_find_byte};

verus! {

/// The offset just behind the line that holds offset `pos`: behind the next
/// line feed, or the end of the stream where none follows.
pub open spec fn line_end(s: Seq<u8>, pos: int) -> int {
    let nl = find_byte(s, 10, pos);
    if nl < s.len() {
        nl + 1
    } else {
        s.len() as int
    }
}

/// What reading one line at offset `pos` yields: the bytes up to and with the
/// next line feed, and nothing at or behind the end of the stream.
pub open spec fn line_at(s: Seq<u8>, pos: int) -> Seq<u8> {
    if 0 <= pos < s.len() {
        s.subrange(pos, line_end(s, pos))
    } else {
        Seq::empty()
    }
}

/// `pos` is the start of the stream, stands just behind a line feed, or is at
/// or behind the end.
pub open spec fn is_boundary(s: Seq<u8>, pos: int) -> bool {
    0 <= pos && (pos == 0 || pos >= s.len() || s[pos - 1] == 10)
}

/// A line begins at `pos`.
pub open spec fn starts_line(s: Seq<u8>, pos: int) -> bool {
    is_boundary(s, pos) && pos < s.len()
}

/// Every line of the stream has a count that can be read.
pub open spec fn well_formed(s: Seq<u8>) -> bool {
    forall|p: int| #[trigger] starts_line(s, p) ==> entry_count(line_at(s, p)).is_some()
}

/// The hashes of the lines ascend strictly from line to line.
pub open spec fn strictly_sorted(s: Seq<u8>) -> bool {
    forall|p: int, q: int|
        #[trigger] starts_line(s, p) && #[trigger] starts_line(s, q) && p < q ==> lex_less(
            entry_hash(line_at(s, p)),
            entry_hash(line_at(s, q)),
        )
}

/// The plain search: the count of the first line at or behind `pos` whose hash
/// is `target`, reading line after line to the end.
pub open spec fn lookup_from(s: Seq<u8>, pos: int, target: Seq<u8>) -> Option<u64>
    decreases s.len() - pos,
{
    if pos < 0 || pos >= s.len() {
        None
    } else if entry_hash(line_at(s, pos)) == target {
        entry_count(line_at(s, pos))
    } else {
        proof {
            lemma_find_byte(s, 10, pos);
        }
        lookup_from(s, line_end(s, pos), target)
    }
}

/// The plain search of the whole stream.
pub open spec fn lookup(s: Seq<u8>, target: Seq<u8>) -> Option<u64> {
    lookup_from(s, 0, target)
}

/// A line that begins inside the stream is not empty and ends on a boundary,
/// at or before every boundary behind its start.
pub proof fn lemma_line_end(s: Seq<u8>, pos: int)
    requires
        0 <= pos < s.len(),
    ensures
        pos < line_end(s, pos) <= s.len(),
        is_boundary(s, line_end(s, pos)),
        line_at(s, pos).len() == line_end(s, pos) - pos,
        forall|q: int| pos < q && #[trigger] is_boundary(s, q) ==> line_end(s, pos) <= q,
{
    lemma_find_byte(s, 10, pos);
    let nl = find_byte(s, 10, pos);
    assert forall|q: int| pos < q && #[trigger] is_boundary(s, q) implies line_end(s, pos) <= q by {
        if q < s.len() && q - 1 < nl {
            assert(s[q - 1] != 10);
        }
    }
}

/// The plain search may skip lines whose hash is not the target.
pub proof fn lemma_lookup_skips(s: Seq<u8>, a: int, b: int, target: Seq<u8>)
    requires
        is_boundary(s, a),
        is_boundary(s, b),
        a <= b,
        forall|q: int| a <= q < b && #[trigger] starts_line(s, q) ==> entry_hash(line_at(s, q)) != target,
    ensures
        lookup_from(s, a, target) == lookup_from(s, b, target),
    decreases b - a,
{
    if a < b && a < s.len() {
        assert(starts_line(s, a));
        lemma_line_end(s, a);
        lemma_lookup_skips(s, line_end(s, a), b, target);
    }
}

/// In a sorted stream the plain search finds nothing behind a line whose hash
/// exceeds the target.
pub proof fn lemma_lookup_none_behind_greater(s: Seq<u8>, p: int, q: int, target: Seq<u8>)
    requires
        strictly_sorted(s),
        starts_line(s, p),
        lex_less(target, entry_hash(line_at(s, p))),
        is_boundary(s, q),
        p <= q,
    ensures
        lookup_from(s, q, target).is_none(),
    decreases s.len() - q,
{
    if q < s.len() {
        assert(starts_line(s, q));
        if p < q {
            lemma_lex_transitive(target, entry_hash(line_at(s, p)), entry_hash(line_at(s, q)));
        }
        lemma_lex_asymmetric(target, entry_hash(line_at(s, q)));
        lemma_line_end(s, q);
        lemma_lookup_none_behind_greater(s, p, line_end(s, q), target);
    }
}

/// In a sorted stream, what the plain search finds from a boundary on it also
/// finds from every boundary before it.
pub proof fn lemma_lookup_from_earlier(s: Seq<u8>, a: int, b: int, target: Seq<u8>)
    requires
        strictly_sorted(s),
        is_boundary(s, a),
        is_boundary(s, b),
        a <= b,
        lookup_from(s, b, target).is_some(),
    ensures
        lookup_from(s, a, target) == lookup_from(s, b, target),
    decreases s.len() - b,
{
    if b < s.len() {
        assert(starts_line(s, b));
        lemma_line_end(s, b);
        if entry_hash(line_at(s, b)) == target {
            assert forall|q: int| a <= q < b && #[trigger] starts_line(s, q) implies entry_hash(
                line_at(s, q),
            ) != target by {
                lemma_lex_asymmetric(entry_hash(line_at(s, q)), entry_hash(line_at(s, b)));
            }
            lemma_lookup_skips(s, a, b, target);
        } else {
            lemma_lookup_from_earlier(s, a, line_end(s, b), target);
        }
    }
}

/// In a sorted stream, what the plain search finds from a boundary on it also
/// finds from the start.
pub proof fn lemma_lookup_from_boundary(s: Seq<u8>, pos: int, target: Seq<u8>)
    requires
        strictly_sorted(s),
        is_boundary(s, pos),
        lookup_from(s, pos, target).is_some(),
    ensures
        lookup(s, target) == lookup_from(s, pos, target),
{
    lemma_lookup_from_earlier(s, 0, pos, target);
}

/// A reference stream held in memory.
#[derive(Debug)]
pub struct ReferenceStream {
    bytes: Vec<u8>,
}

impl View for ReferenceStream {
    type V = Seq<u8>;

    closed spec fn view(&self) -> Seq<u8> {
        self.bytes@
    }
}

impl ReferenceStream {
    /// The stream that holds `bytes`.
    pub fn new(bytes: Vec<u8>) -> (r: ReferenceStream)
        ensures
            r@ == bytes@,
    {
        ReferenceStream { bytes }
    }

    /// The length of the stream in bytes.
    pub fn len(&self) -> (r: u64)
        ensures
            r == self@.len(),
    {
        self.bytes.len() as u64
    }

    /// Reads the line at offset `pos`: empty at or behind the end.
    pub fn read_line_at(&self, pos: u64) -> (r: &[u8])
        ensures
            r@ == line_at(self@, pos as int),
    {
        let s = self.bytes.as_slice();
        let n: usize = s.len();
        if pos >= n as u64 {
            return slice_subrange(s, n, n);
        }
        let start: usize = pos as usize;
        let nl: usize = find_byte_from(s, 10, start);
        let end: usize = if nl < n { nl + 1 } else { n };
        slice_subrange(s, start, end)
    }
}

} // verus!
