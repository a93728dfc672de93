//! Account records: one line of an account dump, in four columns separated by
//! white space: identifier, name, password hash, control flags.

use vstd::prelude::*;
use vstd::slice::{slice_subrange, slice_to_vec};
use crate::flags::{disabled, is_disabled};
use crate::text::{
    decimal_value, find_space, find_space_from, parse_decimal, skip_spaces, skip_spaces_from,
};

verus! {

/// One account whose password is to be checked.
#[derive(Debug)]
pub struct AccountRecord {
    /// The relative identifier.
    pub id: u64,
    /// The account's name.
    pub name: Vec<u8>,
    /// The password hash, in upper case.
    pub password_hash: Vec<u8>,
    /// The control flags, as the dump gives them.
    pub control_flags: u32,
}

/// An account record as a value of mathematics.
pub struct RecordModel {
    pub id: u64,
    pub name: Seq<u8>,
    pub password_hash: Seq<u8>,
    pub control_flags: u32,
}

impl View for AccountRecord {
    type V = RecordModel;

    open spec fn view(&self) -> RecordModel {
        RecordModel {
            id: self.id,
            name: self.name@,
            password_hash: self.password_hash@,
            control_flags: self.control_flags,
        }
    }
}

/// What is wrong with a line of the account dump.
#[derive(Clone, Copy, Debug, PartialEq, Eq, Structural)]
pub enum LineError {
    /// The line has fewer than four columns.
    MissingField,
    /// The fourth column is no number that fits the control flags.
    InvalidControlFlags,
    /// The first column is no number that fits an identifier.
    InvalidId,
}

/// The byte in upper case, where it is a lower-case ASCII letter.
pub open spec fn upper_byte(b: u8) -> u8 {
    if 97 <= b <= 122 {
        (b - 32) as u8
    } else {
        b
    }
}

/// The string with its ASCII letters in upper case.
pub open spec fn upper(s: Seq<u8>) -> Seq<u8> {
    Seq::new(s.len(), |i: int| upper_byte(s[i]))
}

/// Where the column begins that follows the column beginning at `at`.
pub open spec fn next_column(s: Seq<u8>, at: int) -> int {
    skip_spaces(s, find_space(s, at))
}

/// The column that begins at `at`: the bytes up to the next white space.
pub open spec fn column(s: Seq<u8>, at: int) -> Seq<u8> {
    s.subrange(at, find_space(s, at))
}

/// What a line of the dump says. A line with fewer than four columns or with
/// control flags that are no number is an error. A disabled account is
/// `None`, whatever its other columns hold. For any other account the
/// identifier has to be a number, and the hash is put in upper case.
pub open spec fn parse_line(s: Seq<u8>) -> Result<Option<RecordModel>, LineError> {
    let id_at = skip_spaces(s, 0);
    let name_at = next_column(s, id_at);
    let hash_at = next_column(s, name_at);
    let flags_at = next_column(s, hash_at);
    if flags_at >= s.len() {
        Err(LineError::MissingField)
    } else {
        match decimal_value(column(s, flags_at), u32::MAX as nat) {
            None => Err(LineError::InvalidControlFlags),
            Some(flags) => if disabled(flags as u32) {
                Ok(None)
            } else {
                match decimal_value(column(s, id_at), u64::MAX as nat) {
                    None => Err(LineError::InvalidId),
                    Some(id) => Ok(
                        Some(
                            RecordModel {
                                id: id as u64,
                                name: column(s, name_at),
                                password_hash: upper(column(s, hash_at)),
                                control_flags: flags as u32,
                            },
                        ),
                    ),
                }
            },
        }
    }
}

/// The string with its ASCII letters in upper case.
pub fn to_uppercase(s: &[u8]) -> (r: Vec<u8>)
    ensures
        r@ == upper(s@),
{
    let mut out: Vec<u8> = Vec::with_capacity(s.len());
    let mut i: usize = 0;
    while i < s.len()
        invariant
            i <= s.len(),
            out@ == Seq::new(i as nat, |j: int| upper_byte(s@[j])),
        decreases s.len() - i,
    {
        let b: u8 = s[i];
        let u: u8 = if 97 <= b && b <= 122 { b - 32 } else { b };
        out.push(u);
        i = i + 1;
        assert(out@ =~= Seq::new(i as nat, |j: int| upper_byte(s@[j])));
    }
    out
}

/// Reads one line of the account dump.
pub fn parse_account(line: &[u8]) -> (r: Result<Option<AccountRecord>, LineError>)
    ensures
        match r {
            Ok(Some(record)) => parse_line(line@) == Ok::<Option<RecordModel>, LineError>(
                Some(record@),
            ),
            Ok(None) => parse_line(line@) == Ok::<Option<RecordModel>, LineError>(None),
            Err(e) => parse_line(line@) == Err::<Option<RecordModel>, LineError>(e),
        },
{
    let id_at = skip_spaces_from(line, 0);
    let id_end = find_space_from(line, id_at);
    let name_at = skip_spaces_from(line, id_end);
    let name_end = find_space_from(line, name_at);
    let hash_at = skip_spaces_from(line, name_end);
    let hash_end = find_space_from(line, hash_at);
    let flags_at = skip_spaces_from(line, hash_end);
    if flags_at >= line.len() {
        return Err(LineError::MissingField);
    }
    let flags_end = find_space_from(line, flags_at);
    let flags: u32 = match parse_decimal(slice_subrange(line, flags_at, flags_end), 0xffff_ffff) {
        Some(v) => v as u32,
        None => {
            return Err(LineError::InvalidControlFlags);
        },
    };
    if is_disabled(flags) {
        return Ok(None);
    }
    let id: u64 = match parse_decimal(slice_subrange(line, id_at, id_end), u64::MAX) {
        Some(v) => v,
        None => {
            return Err(LineError::InvalidId);
        },
    };
    Ok(
        Some(
            AccountRecord {
                id,
                name: slice_to_vec(slice_subrange(line, name_at, name_end)),
                password_hash: to_uppercase(slice_subrange(line, hash_at, hash_end)),
                control_flags: flags,
            },
        ),
    )
}

} // verus!
