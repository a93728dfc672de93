//! Scanning of byte strings: finding a byte, trimming white space, reading a
//! decimal number.

use vstd::prelude::*;
use vstd::slice::slice_subrange;

verus! {

/// ASCII white space: space, tab, line feed, vertical tab, form feed, carriage return.
pub open spec fn is_space(b: u8) -> bool {
    b == 32 || (9 <= b <= 13)
}

/// The first index at or after `i` that holds `b`, or the length where none does.
pub open spec fn find_byte(s: Seq<u8>, b: u8, i: int) -> int
    decreases s.len() - i,
{
    if i < 0 || i >= s.len() {
        s.len() as int
    } else if s[i] == b {
        i
    } else {
        find_byte(s, b, i + 1)
    }
}

/// The first index at or after `i` that holds white space, or the length.
pub open spec fn find_space(s: Seq<u8>, i: int) -> int
    decreases s.len() - i,
{
    if i < 0 || i >= s.len() {
        s.len() as int
    } else if is_space(s[i]) {
        i
    } else {
        find_space(s, i + 1)
    }
}

/// The first index at or after `i` that holds no white space, or the length.
pub open spec fn skip_spaces(s: Seq<u8>, i: int) -> int
    decreases s.len() - i,
{
    if i < 0 || i >= s.len() {
        s.len() as int
    } else if !is_space(s[i]) {
        i
    } else {
        skip_spaces(s, i + 1)
    }
}

/// The least `e` in `lo ..= hi` such that `s[e .. hi]` is all white space.
pub open spec fn trim_end(s: Seq<u8>, lo: int, hi: int) -> int
    decreases hi,
{
    if hi <= lo || hi > s.len() || hi <= 0 {
        lo
    } else if !is_space(s[hi - 1]) {
        hi
    } else {
        trim_end(s, lo, hi - 1)
    }
}

/// `s` without the white space at its two ends.
pub open spec fn trimmed(s: Seq<u8>) -> Seq<u8> {
    let lo = skip_spaces(s, 0);
    s.subrange(lo, trim_end(s, lo, s.len() as int))
}

/// Where `find_byte` lands: within bounds, past only other bytes, on `b` unless at the end.
pub proof fn lemma_find_byte(s: Seq<u8>, b: u8, i: int)
    requires
        0 <= i <= s.len(),
    ensures
        i <= find_byte(s, b, i) <= s.len(),
        forall|j: int| i <= j < find_byte(s, b, i) ==> #[trigger] s[j] != b,
        find_byte(s, b, i) < s.len() ==> s[find_byte(s, b, i)] == b,
    decreases s.len() - i,
{
    if i < s.len() && s[i] != b {
        lemma_find_byte(s, b, i + 1);
    }
}

/// The index of the first `b` at or after `start`, or the length.
pub fn find_byte_from(s: &[u8], b: u8, start: usize) -> (r: usize)
    requires
        start <= s.len(),
    ensures
        r == find_byte(s@, b, start as int),
        start <= r <= s.len(),
{
    let mut i: usize = start;
    while i < s.len() && s[i] != b
        invariant
            start <= i <= s.len(),
            find_byte(s@, b, start as int) == find_byte(s@, b, i as int),
        decreases s.len() - i,
    {
        i = i + 1;
    }
    i
}

/// The index of the first white space at or after `start`, or the length.
pub fn find_space_from(s: &[u8], start: usize) -> (r: usize)
    requires
        start <= s.len(),
    ensures
        r == find_space(s@, start as int),
        start <= r <= s.len(),
{
    let mut i: usize = start;
    while i < s.len() && !is_space_byte(s[i])
        invariant
            start <= i <= s.len(),
            find_space(s@, start as int) == find_space(s@, i as int),
        decreases s.len() - i,
    {
        i = i + 1;
    }
    i
}

/// The index of the first byte at or after `start` that is no white space, or the length.
pub fn skip_spaces_from(s: &[u8], start: usize) -> (r: usize)
    requires
        start <= s.len(),
    ensures
        r == skip_spaces(s@, start as int),
        start <= r <= s.len(),
{
    let mut i: usize = start;
    while i < s.len() && is_space_byte(s[i])
        invariant
            start <= i <= s.len(),
            skip_spaces(s@, start as int) == skip_spaces(s@, i as int),
        decreases s.len() - i,
    {
        i = i + 1;
    }
    i
}

/// Whether `b` is ASCII white space.
pub fn is_space_byte(b: u8) -> (r: bool)
    ensures
        r == is_space(b),
{
    b == 32 || (9 <= b && b <= 13)
}

/// The slice without the white space at its two ends.
pub fn trim(s: &[u8]) -> (r: &[u8])
    ensures
        r@ == trimmed(s@),
{
    let lo: usize = skip_spaces_from(s, 0);
    let mut hi: usize = s.len();
    while hi > lo && is_space_byte(s[hi - 1])
        invariant
            lo <= hi <= s.len(),
            trim_end(s@, lo as int, s.len() as int) == trim_end(s@, lo as int, hi as int),
        decreases hi,
    {
        hi = hi - 1;
    }
    slice_subrange(s, lo, hi)
}

/// A decimal digit.
pub open spec fn is_digit(b: u8) -> bool {
    48 <= b <= 57
}

/// Every byte is a decimal digit.
pub open spec fn all_digits(s: Seq<u8>) -> bool {
    forall|i: int| 0 <= i < s.len() ==> is_digit(#[trigger] s[i])
}

/// The number that a string of digits writes.
pub open spec fn digits_value(s: Seq<u8>) -> nat
    decreases s.len(),
{
    if s.len() == 0 {
        0
    } else {
        (digits_value(s.drop_last()) * 10 + (s.last() - 48)) as nat
    }
}

/// The string without one leading plus sign.
pub open spec fn unsigned_part(s: Seq<u8>) -> Seq<u8> {
    if s.len() > 0 && s[0] == 43 {
        s.skip(1)
    } else {
        s
    }
}

/// The number that `s` writes: an optional plus sign and then one digit or
/// more, with a value of at most `max`. Anything else writes no number.
pub open spec fn decimal_value(s: Seq<u8>, max: nat) -> Option<nat> {
    let d = unsigned_part(s);
    if d.len() > 0 && all_digits(d) && digits_value(d) <= max {
        Some(digits_value(d))
    } else {
        None
    }
}

proof fn lemma_digits_prefix(d: Seq<u8>, k: int)
    requires
        0 <= k <= d.len(),
        all_digits(d),
    ensures
        digits_value(d.take(k)) <= digits_value(d),
    decreases d.len() - k,
{
    if k < d.len() {
        assert(d.take(k + 1).drop_last() =~= d.take(k));
        assert(is_digit(d[k]));
        assert(d.take(k + 1).last() == d[k]);
        lemma_digits_prefix(d, k + 1);
    } else {
        assert(d.take(k) =~= d);
    }
}

/// Reads a decimal number of at most `max`.
pub fn parse_decimal(s: &[u8], max: u64) -> (r: Option<u64>)
    ensures
        match r {
            Some(v) => decimal_value(s@, max as nat) == Some(v as nat),
            None => decimal_value(s@, max as nat).is_none(),
        },
{
    let start: usize = if s.len() > 0 && s[0] == 43 { 1 } else { 0 };
    let ghost d = unsigned_part(s@);
    assert(d =~= s@.skip(start as int));
    if start == s.len() {
        return None;
    }
    let mut acc: u64 = 0;
    let mut i: usize = start;
    assert(d.take(0) =~= Seq::<u8>::empty());
    while i < s.len()
        invariant
            start <= i <= s.len(),
            d == s@.skip(start as int),
            d == unsigned_part(s@),
            all_digits(d.take(i - start)),
            acc == digits_value(d.take(i - start)),
            acc <= max,
        decreases s.len() - i,
    {
        let c: u8 = s[i];
        let ghost k = i - start;
        assert(d[k] == c);
        if c < 48 || c > 57 {
            assert(!is_digit(d[k]));
            return None;
        }
        let v: u64 = (c - 48) as u64;
        proof {
            assert(d.take(k + 1).drop_last() =~= d.take(k));
            assert(d.take(k + 1).last() == c);
            assert(digits_value(d.take(k + 1)) == acc * 10 + v);
            assert forall|j: int| 0 <= j < d.take(k + 1).len() implies is_digit(
                #[trigger] d.take(k + 1)[j],
            ) by {
                if j < k {
                    assert(d.take(k)[j] == d.take(k + 1)[j]);
                }
            }
        }
        if v > max || acc > (max - v) / 10 {
            proof {
                if all_digits(d) {
                    lemma_digits_prefix(d, k + 1);
                }
            }
            return None;
        }
        acc = acc * 10 + v;
        i = i + 1;
    }
    assert(d.take(i - start) =~= d);
    Some(acc)
}

} // verus!
