//! The query batch: the active accounts of a dump, sorted by password hash,
//! and the run of the matcher over them.

use vstd::prelude::*;
use vstd::seq_lib::lemma_multiset_commutative;
use vstd::slice::slice_to_vec;
use crate::account::{parse_account, parse_line, AccountRecord, LineError, RecordModel};
use crate::flags::disabled;
use crate::matcher::{search_each, MatchError, Matcher, SearchState};
use crate::order::{
    compare_hashes, lemma_lex_le_transitive, lemma_lex_total, lex_le, lex_less, HashOrder,
};
use crate::step::stride_for;
use crate::stream::ReferenceStream;

verus! {

/// A line of the dump that could not be read.
#[derive(Clone, Copy, Debug, PartialEq, Eq)]
pub struct PrepareError {
    /// The index of the line, from zero.
    pub line: usize,
    /// What is wrong with it.
    pub kind: LineError,
}

/// An account whose password hash the reference stream holds.
#[derive(Debug)]
pub struct MatchResult {
    /// The account.
    pub record: AccountRecord,
    /// How often its password was seen in breaches.
    pub count: u64,
}

/// The records as values of mathematics.
pub open spec fn models(records: Seq<AccountRecord>) -> Seq<RecordModel> {
    records.map_values(|r: AccountRecord| r@)
}

/// The records ascend by password hash; equal hashes may follow each other.
pub open spec fn ascending(records: Seq<RecordModel>) -> bool {
    forall|i: int, j: int|
        0 <= i < j < records.len() ==> lex_le(
            #[trigger] records[i].password_hash,
            #[trigger] records[j].password_hash,
        )
}

/// The records of the lines that hold an active account, in the lines' order.
pub open spec fn active_records(lines: Seq<Seq<u8>>) -> Seq<RecordModel>
    decreases lines.len(),
{
    if lines.len() == 0 {
        Seq::empty()
    } else {
        let front = active_records(lines.drop_last());
        match parse_line(lines.last()) {
            Ok(Some(record)) => front.push(record),
            _ => front,
        }
    }
}

/// Line `k` is the first that cannot be read, and `kind` is what is wrong
/// with it.
pub open spec fn first_error(lines: Seq<Seq<u8>>, k: int, kind: LineError) -> bool {
    &&& 0 <= k < lines.len()
    &&& parse_line(lines[k]) == Err::<Option<RecordModel>, LineError>(kind)
    &&& forall|j: int| 0 <= j < k ==> (#[trigger] parse_line(lines[j])).is_ok()
}

/// The password hashes of the records, in their order.
pub open spec fn hashes_of(records: Seq<RecordModel>) -> Seq<Seq<u8>> {
    records.map_values(|r: RecordModel| r.password_hash)
}

/// The records that have a count among `answers`, each with its count, in
/// the records' order.
pub open spec fn matched(records: Seq<RecordModel>, answers: Seq<Option<u64>>) -> Seq<
    (RecordModel, u64),
>
    decreases records.len(),
{
    if records.len() == 0 || answers.len() != records.len() {
        Seq::empty()
    } else {
        let front = matched(records.drop_last(), answers.drop_last());
        match answers.last() {
            Some(count) => front.push((records.last(), count)),
            None => front,
        }
    }
}

/// The match results as values of mathematics.
pub open spec fn match_models(found: Seq<MatchResult>) -> Seq<(RecordModel, u64)> {
    found.map_values(|m: MatchResult| (m.record@, m.count))
}

/// Putting a record into an ascending run, behind the records that do not
/// exceed it and before the first that does, keeps the run ascending and adds
/// that record and no other.
proof fn lemma_insert_ascending(s: Seq<RecordModel>, idx: int, x: RecordModel)
    requires
        ascending(s),
        0 <= idx <= s.len(),
        forall|i: int| 0 <= i < idx ==> lex_le(#[trigger] s[i].password_hash, x.password_hash),
        idx < s.len() ==> lex_less(x.password_hash, s[idx].password_hash),
    ensures
        ascending(s.insert(idx, x)),
        s.insert(idx, x).to_multiset() == s.to_multiset().insert(x),
{
    let t = s.insert(idx, x);
    s.insert_ensures(idx, x);
    assert forall|i: int, j: int| 0 <= i < j < t.len() implies lex_le(
        #[trigger] t[i].password_hash,
        #[trigger] t[j].password_hash,
    ) by {
        if j < idx {
            assert(t[i] == s[i] && t[j] == s[j]);
        } else if j == idx {
            assert(t[i] == s[i]);
        } else if i < idx {
            assert(t[i] == s[i] && t[j] == s[j - 1]);
        } else if i == idx {
            assert(t[j] == s[j - 1]);
            lemma_lex_le_transitive(x.password_hash, s[idx].password_hash, s[j - 1].password_hash);
        } else {
            assert(t[i] == s[i - 1] && t[j] == s[j - 1]);
        }
    }
    let front = s.subrange(0, idx);
    let back = s.subrange(idx, s.len() as int);
    assert(s =~= front + back);
    lemma_multiset_commutative(front, back);
    lemma_multiset_commutative(front.push(x), back);
    vstd::seq_lib::to_multiset_build(front, x);
    assert(t.to_multiset() =~= s.to_multiset().insert(x));
}

/// A copy of the record.
pub fn copy_record(record: &AccountRecord) -> (r: AccountRecord)
    ensures
        r@ == record@,
{
    AccountRecord {
        id: record.id,
        name: slice_to_vec(record.name.as_slice()),
        password_hash: slice_to_vec(record.password_hash.as_slice()),
        control_flags: record.control_flags,
    }
}

/// The active accounts of a dump in ascending order of their password hashes.
#[derive(Debug)]
pub struct QueryBatch {
    records: Vec<AccountRecord>,
    total: usize,
}

impl View for QueryBatch {
    type V = Seq<RecordModel>;

    closed spec fn view(&self) -> Seq<RecordModel> {
        models(self.records@)
    }
}

impl QueryBatch {
    /// How many lines the dump had.
    pub closed spec fn total_seen(&self) -> nat {
        self.total as nat
    }

    /// The batch of the accounts in `lines`, one line of the dump each.
    ///
    /// Disabled accounts are left out. The first line that cannot be read
    /// ends the work with that line's index and fault.
    pub fn prepare(lines: &Vec<Vec<u8>>) -> (r: Result<QueryBatch, PrepareError>)
        ensures
            match r {
                Ok(batch) => {
                    &&& forall|j: int|
                        0 <= j < lines.len() ==> (#[trigger] parse_line(lines[j]@)).is_ok()
                    &&& ascending(batch@)
                    &&& forall|k: int|
                        0 <= k < batch@.len() ==> !disabled(#[trigger] batch@[k].control_flags)
                    &&& batch@.to_multiset() == active_records(lines.deep_view()).to_multiset()
                    &&& batch.total_seen() == lines.len()
                },
                Err(e) => first_error(lines.deep_view(), e.line as int, e.kind),
            },
    {
        let ghost all = lines.deep_view();
        let mut records: Vec<AccountRecord> = Vec::new();
        let mut i: usize = 0;
        assert(all.take(0) =~= Seq::<Seq<u8>>::empty());
        assert(models(records@) =~= Seq::<RecordModel>::empty());
        while i < lines.len()
            invariant
                i <= lines.len(),
                all == lines.deep_view(),
                all.len() == lines.len(),
                forall|j: int| 0 <= j < i ==> (#[trigger] parse_line(all[j])).is_ok(),
                ascending(models(records@)),
                forall|k: int|
                    0 <= k < records.len() ==> !disabled(
                        #[trigger] models(records@)[k].control_flags,
                    ),
                models(records@).to_multiset() == active_records(all.take(i as int)).to_multiset(),
            decreases lines.len() - i,
        {
            proof {
                assert(all.take(i + 1).drop_last() =~= all.take(i as int));
                assert(all.take(i + 1).last() == all[i as int]);
                assert(all[i as int] == lines[i as int]@);
            }
            match parse_account(lines[i].as_slice()) {
                Err(kind) => {
                    return Err(PrepareError { line: i, kind });
                },
                Ok(None) => {},
                Ok(Some(record)) => {
                    let ghost before = models(records@);
                    let mut idx: usize = 0;
                    while idx < records.len() && !precedes(
                        record.password_hash.as_slice(),
                        records[idx].password_hash.as_slice(),
                    )
                        invariant
                            idx <= records.len(),
                            before == models(records@),
                            forall|k: int|
                                0 <= k < idx ==> lex_le(
                                    #[trigger] before[k].password_hash,
                                    record@.password_hash,
                                ),
                        decreases records.len() - idx,
                    {
                        proof {
                            lemma_lex_total(
                                before[idx as int].password_hash,
                                record@.password_hash,
                            );
                        }
                        idx = idx + 1;
                    }
                    proof {
                        lemma_insert_ascending(before, idx as int, record@);
                        before.insert_ensures(idx as int, record@);
                        vstd::seq_lib::to_multiset_build(
                            active_records(all.take(i as int)),
                            record@,
                        );
                        assert(models(records@.insert(idx as int, record)) =~= before.insert(
                            idx as int,
                            record@,
                        ));
                    }
                    records.insert(idx, record);
                },
            }
            i = i + 1;
        }
        proof {
            assert(all.take(i as int) =~= all);
            assert forall|j: int| 0 <= j < lines.len() implies (#[trigger] parse_line(
                lines[j]@,
            )).is_ok() by {
                assert(all[j] == lines[j]@);
            }
        }
        Ok(QueryBatch { records, total: i })
    }

    /// How many lines the dump had, disabled accounts counted.
    pub fn total(&self) -> (r: usize)
        ensures
            r == self.total_seen(),
    {
        self.total
    }

    /// How many active accounts the batch holds.
    pub fn len(&self) -> (r: usize)
        ensures
            r == self@.len(),
    {
        self.records.len()
    }

    /// The record at place `i` of the ascending order.
    pub fn get(&self, i: usize) -> (r: &AccountRecord)
        requires
            i < self@.len(),
        ensures
            r@ == self@[i as int],
    {
        &self.records[i]
    }

    /// Searches the stream for the password hash of each account, in the
    /// batch's order, and gives the accounts that were found, each with its
    /// count. The first line of the stream that has to give a count and has
    /// none ends the work.
    pub fn audit(&self, stream: &ReferenceStream) -> (r: Result<Vec<MatchResult>, MatchError>)
        ensures
            ({
                let start = SearchState::initial(stride_for(stream@.len() as u64));
                let answers = search_each(start, stream@, hashes_of(self@)).1;
                match r {
                    Ok(found) => answers.is_ok() && match_models(found@) == matched(
                        self@,
                        answers.unwrap(),
                    ),
                    Err(e) => answers == Err::<Seq<Option<u64>>, MatchError>(e),
                }
            }),
    {
        let length = stream.len();
        let mut matcher = Matcher::new(length);
        let ghost start = matcher@;
        let ghost targets = hashes_of(self@);
        let ghost answers: Seq<Option<u64>> = Seq::empty();
        let mut found: Vec<MatchResult> = Vec::new();
        let mut i: usize = 0;
        proof {
            assert(targets.take(0) =~= Seq::<Seq<u8>>::empty());
            assert(match_models(found@) =~= matched(self@.take(0), answers));
        }
        while i < self.records.len()
            invariant
                i <= self.records.len(),
                self@.len() == self.records.len(),
                targets == hashes_of(self@),
                start == SearchState::initial(stride_for(stream@.len() as u64)),
                matcher@.wf(),
                answers.len() == i,
                search_each(start, stream@, targets.take(i as int)) == (
                    matcher@,
                    Ok::<Seq<Option<u64>>, MatchError>(answers),
                ),
                match_models(found@) == matched(self@.take(i as int), answers),
            decreases self.records.len() - i,
        {
            let record = &self.records[i];
            proof {
                assert(targets.take(i + 1).drop_last() =~= targets.take(i as int));
                assert(targets.take(i + 1).last() == record@.password_hash);
                assert(self@.take(i + 1).drop_last() =~= self@.take(i as int));
                assert(self@.take(i + 1).last() == record@);
            }
            match matcher.search(stream, record.password_hash.as_slice()) {
                Err(e) => {
                    proof {
                        crate::matcher::lemma_search_each_stays_failed(
                            start,
                            stream@,
                            targets,
                            i + 1,
                        );
                    }
                    return Err(e);
                },
                Ok(answer) => {
                    proof {
                        assert(answers.push(answer).drop_last() =~= answers);
                        answers = answers.push(answer);
                    }
                    match answer {
                        Some(count) => {
                            let ghost old_found = match_models(found@);
                            found.push(MatchResult { record: copy_record(record), count });
                            assert(match_models(found@) =~= old_found.push((record@, count)));
                        },
                        None => {},
                    }
                },
            }
            i = i + 1;
        }
        proof {
            assert(targets.take(i as int) =~= targets);
            assert(self@.take(i as int) =~= self@);
        }
        Ok(found)
    }
}

/// Whether `a` precedes `b` in the order of the hashes.
pub fn precedes(a: &[u8], b: &[u8]) -> (r: bool)
    ensures
        r == lex_less(a@, b@),
{
    match compare_hashes(a, b) {
        HashOrder::Less => true,
        HashOrder::Equal => {
            proof {
                crate::order::lemma_lex_irreflexive(a@);
            }
            false
        },
        HashOrder::Greater => false,
    }
}

} // verus!
