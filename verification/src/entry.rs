//! The format of one line of the reference stream: `<hash>:<count>`.

use vstd::prelude::*;
use vstd::slice::slice_subrange;
use crate::text::{decimal_value, find_byte, find_byte_from, parse_decimal, trim, trimmed};

verus! {

/// One entry of the reference stream.
#[derive(Debug)]
pub struct Entry {
    /// The hash, as the stream writes it.
    pub hash: Vec<u8>,
    /// How often the hashed password was seen in breaches.
    pub count: u64,
}

/// The hash field of a line: what stands before the first colon of the
/// trimmed line, or the whole trimmed line where it holds no colon.
pub open spec fn entry_hash(line: Seq<u8>) -> Seq<u8> {
    let t = trimmed(line);
    t.subrange(0, find_byte(t, 58, 0))
}

/// The count field of a line: what stands between the first colon of the
/// trimmed line and the second one or the end. A line without a colon has none.
pub open spec fn entry_count_field(line: Seq<u8>) -> Option<Seq<u8>> {
    let t = trimmed(line);
    let colon = find_byte(t, 58, 0);
    if colon < t.len() {
        Some(t.subrange(colon + 1, find_byte(t, 58, colon + 1)))
    } else {
        None
    }
}

/// The count of a line, where it has a count field that writes a number.
pub open spec fn entry_count(line: Seq<u8>) -> Option<u64> {
    match entry_count_field(line) {
        Some(field) => match decimal_value(field, u64::MAX as nat) {
            Some(v) => Some(v as u64),
            None => None,
        },
        None => None,
    }
}

/// The hash field of `line`.
pub fn hash_field(line: &[u8]) -> (r: &[u8])
    ensures
        r@ == entry_hash(line@),
{
    let t = trim(line);
    let colon = find_byte_from(t, 58, 0);
    slice_subrange(t, 0, colon)
}

/// The count of `line`, or `None` where the line has no well-formed count.
pub fn count_field(line: &[u8]) -> (r: Option<u64>)
    ensures
        r == entry_count(line@),
{
    let t = trim(line);
    let colon = find_byte_from(t, 58, 0);
    if colon >= t.len() {
        return None;
    }
    let end = find_byte_from(t, 58, colon + 1);
    parse_decimal(slice_subrange(t, colon + 1, end), u64::MAX)
}

} // verus!
