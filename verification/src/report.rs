//! The report: one header row, and one row for each account that was found,
//! with tabs between the columns.

use vstd::prelude::*;
use crate::account::RecordModel;
use crate::batch::MatchResult;
use crate::text::{all_digits, decimal_value, digits_value, is_digit, unsigned_part};

verus! {

/// The decimal digits of `n`, without leading zeros.
pub open spec fn decimal(n: nat) -> Seq<u8>
    decreases n,
{
    if n < 10 {
        seq![(48 + n) as u8]
    } else {
        decimal(n / 10).push((48 + n % 10) as u8)
    }
}

/// The header row: `RID`, `Name`, `userAccountControl`, `Pwned`.
pub open spec fn header_text() -> Seq<u8> {
    seq![
        82u8, 73, 68, 9, 78, 97, 109, 101, 9, 117, 115, 101, 114, 65, 99, 99, 111, 117, 110, 116,
        67, 111, 110, 116, 114, 111, 108, 9, 80, 119, 110, 101, 100, 10,
    ]
}

/// The row of one account: identifier, name, control flags as they were
/// given, and the count.
pub open spec fn row_text(record: RecordModel, count: u64) -> Seq<u8> {
    decimal(record.id as nat) + seq![9u8] + record.name + seq![9u8] + decimal(
        record.control_flags as nat,
    ) + seq![9u8] + decimal(count as nat) + seq![10u8]
}

/// What is written for a number is read back as that number.
pub proof fn lemma_decimal_reads_back(n: nat, max: nat)
    requires
        n <= max,
    ensures
        decimal_value(decimal(n), max) == Some(n),
        decimal(n).len() >= 1,
        all_digits(decimal(n)),
        digits_value(decimal(n)) == n,
    decreases n,
{
    let d = decimal(n);
    if n < 10 {
        assert(d.drop_last() =~= Seq::<u8>::empty());
        assert(digits_value(d.drop_last()) == 0);
        assert(d.last() == 48 + n);
    } else {
        lemma_decimal_reads_back(n / 10, max);
        assert(d.drop_last() =~= decimal(n / 10));
        assert(d.last() == 48 + n % 10);
        assert forall|i: int| 0 <= i < d.len() implies is_digit(#[trigger] d[i]) by {
            if i < d.len() - 1 {
                assert(d[i] == decimal(n / 10)[i]);
            }
        }
    }
    assert(is_digit(d[0]));
    assert(unsigned_part(d) == d);
}

/// Writes `n` in decimal digits.
pub fn format_decimal(n: u64) -> (r: Vec<u8>)
    ensures
        r@ == decimal(n as nat),
{
    let mut out: Vec<u8> = Vec::new();
    let mut rest: u64 = n;
    while rest >= 10
        invariant
            decimal(n as nat) == decimal(rest as nat) + out@,
        decreases rest,
    {
        let digit: u8 = (48 + rest % 10) as u8;
        proof {
            assert(decimal(rest as nat) == decimal((rest / 10) as nat).push(digit));
            assert(decimal((rest / 10) as nat).push(digit) + out@ =~= decimal((rest / 10) as nat)
                + out@.insert(0, digit));
        }
        out.insert(0, digit);
        rest = rest / 10;
    }
    let digit: u8 = (48 + rest) as u8;
    proof {
        assert(decimal(rest as nat) + out@ =~= out@.insert(0, digit));
    }
    out.insert(0, digit);
    out
}

/// The header row of the report.
pub fn report_header() -> (r: Vec<u8>)
    ensures
        r@ == header_text(),
{
    let r = vec![
        82u8, 73, 68, 9, 78, 97, 109, 101, 9, 117, 115, 101, 114, 65, 99, 99, 111, 117, 110, 116,
        67, 111, 110, 116, 114, 111, 108, 9, 80, 119, 110, 101, 100, 10,
    ];
    assert(r@ =~= header_text());
    r
}

/// The row of the report for one account that was found.
pub fn report_row(found: &MatchResult) -> (r: Vec<u8>)
    ensures
        r@ == row_text(found.record@, found.count),
{
    let mut out = format_decimal(found.record.id);
    out.push(9);
    out.extend_from_slice(found.record.name.as_slice());
    out.push(9);
    let flags = format_decimal(found.record.control_flags as u64);
    out.extend_from_slice(flags.as_slice());
    out.push(9);
    let count = format_decimal(found.count);
    out.extend_from_slice(count.as_slice());
    out.push(10);
    assert(out@ =~= row_text(found.record@, found.count));
    out
}

} // verus!
