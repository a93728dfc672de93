//! The progressive matcher: a search that jumps forward through the sorted
//! stream, scans the segment it has overshot, and leaves its cursor where the
//! next, larger hash can go on.
//!
//! The matcher reads nothing itself. It says which line it wants next, and is
//! handed that line: whoever holds the stream does the reading.

use vstd::prelude::*;
use vstd::slice::slice_to_vec;
use crate::entry::{count_field, entry_count, entry_hash, hash_field, Entry};
use crate::order::{compare_hashes, order_of, HashOrder};
use crate::agreement::lemma_search_moves_forward;
use crate::step::{is_stride_for, jump_distance, stride_for};
use crate::stream::{lemma_line_end, line_at, ReferenceStream};

verus! {

/// Where a matcher stands in a search.
#[derive(Clone, Copy, Debug, PartialEq, Eq, Structural)]
pub enum Phase {
    /// No search is under way.
    Idle,
    /// Jumping: the next line is held against the target.
    Probe,
    /// Jumping: the next line is the rest of the line that a jump landed in,
    /// and is thrown away.
    Align,
    /// Scanning the segment line by line.
    Scan,
}

/// What the matcher asks for, or answers.
#[derive(Clone, Copy, Debug, PartialEq, Eq)]
pub enum Step {
    /// Read the line that begins at byte offset `at` and hand it to `advance`.
    Read { at: u64 },
    /// The search has ended: the count of the target, or `None` where the
    /// stream does not hold it.
    Done { count: Option<u64> },
    /// The line at offset `at` had to give a count and has none.
    Malformed { at: u64 },
}

/// Why a search failed.
#[derive(Clone, Copy, Debug, PartialEq, Eq)]
pub enum MatchError {
    /// The line at `offset` is not of the form `<hash>:<count>`.
    MalformedEntry { offset: u64 },
}

/// `a + b`, or the largest offset where the sum exceeds it.
pub open spec fn offset_add(a: u64, b: int) -> u64 {
    if a + b > u64::MAX {
        u64::MAX
    } else {
        (a + b) as u64
    }
}

/// The state that a matcher carries from call to call.
pub struct SearchState {
    /// The jump distance in bytes.
    pub stride: u64,
    /// The offset of the next line to read.
    pub cursor: u64,
    /// Where the segment begins that holds the target, if anything does.
    pub segment_start: u64,
    /// The phase of the search under way.
    pub phase: Phase,
    /// The hash searched for.
    pub target: Seq<u8>,
    /// Hash and count of the last entry examined.
    pub last: Option<(Seq<u8>, u64)>,
}

impl SearchState {
    /// The state before the first search, at the start of the stream.
    pub open spec fn initial(stride: u64) -> SearchState {
        SearchState {
            stride,
            cursor: 0,
            segment_start: 0,
            phase: Phase::Idle,
            target: Seq::empty(),
            last: None,
        }
    }

    /// The invariant of a matcher: it jumps forward, and its segment begins
    /// at or before its cursor.
    pub open spec fn wf(self) -> bool {
        &&& self.stride >= 1
        &&& self.segment_start <= self.cursor
    }

    /// The start of a search for `target`: answered at once from the last
    /// entry examined where that has the same hash, else begun at the cursor.
    pub open spec fn begin(self, target: Seq<u8>) -> (SearchState, Step) {
        match self.last {
            Some((hash, count)) if hash == target => (
                SearchState { phase: Phase::Idle, ..self },
                Step::Done { count: Some(count) },
            ),
            _ => (
                SearchState {
                    phase: Phase::Probe,
                    segment_start: self.cursor,
                    target,
                    ..self
                },
                Step::Read { at: self.cursor },
            ),
        }
    }

    /// The end of a search on `line`, which holds the target (`found`) or the
    /// first hash beyond it: the line becomes the last entry examined.
    pub open spec fn settle(self, line: Seq<u8>, found: bool) -> (SearchState, Step) {
        match entry_count(line) {
            Some(count) => (
                SearchState {
                    phase: Phase::Idle,
                    cursor: offset_add(self.cursor, line.len() as int),
                    last: Some((entry_hash(line), count)),
                    ..self
                },
                Step::Done { count: if found { Some(count) } else { None } },
            ),
            None => (
                SearchState { phase: Phase::Idle, last: None, ..self },
                Step::Malformed { at: self.cursor },
            ),
        }
    }

    /// The end of a search at the end of the stream.
    pub open spec fn exhaust(self) -> (SearchState, Step) {
        (SearchState { phase: Phase::Idle, last: None, ..self }, Step::Done { count: None })
    }

    /// What the matcher does with `line`, the line read at its cursor.
    pub open spec fn advance(self, line: Seq<u8>) -> (SearchState, Step) {
        match self.phase {
            Phase::Idle => (self, Step::Done { count: None }),
            Phase::Probe => if line.len() == 0 {
                self.exhaust()
            } else {
                match order_of(entry_hash(line), self.target) {
                    HashOrder::Equal => self.settle(line, true),
                    HashOrder::Less => {
                        let next = offset_add(self.cursor, line.len() + self.stride);
                        (
                            SearchState {
                                phase: Phase::Align,
                                segment_start: self.cursor,
                                cursor: next,
                                ..self
                            },
                            Step::Read { at: next },
                        )
                    },
                    HashOrder::Greater => (
                        SearchState { phase: Phase::Scan, cursor: self.segment_start, ..self },
                        Step::Read { at: self.segment_start },
                    ),
                }
            },
            Phase::Align => {
                let next = offset_add(self.cursor, line.len() as int);
                (SearchState { phase: Phase::Probe, cursor: next, ..self }, Step::Read { at: next })
            },
            Phase::Scan => if line.len() == 0 {
                self.exhaust()
            } else {
                match order_of(entry_hash(line), self.target) {
                    HashOrder::Equal => self.settle(line, true),
                    HashOrder::Less => {
                        let next = offset_add(self.cursor, line.len() as int);
                        (SearchState { cursor: next, ..self }, Step::Read { at: next })
                    },
                    HashOrder::Greater => self.settle(line, false),
                }
            },
        }
    }
}

/// What a search answers once it has ended.
pub open spec fn outcome_of(step: Step) -> Result<Option<u64>, MatchError> {
    match step {
        Step::Done { count } => Ok(count),
        Step::Malformed { at } => Err(MatchError::MalformedEntry { offset: at }),
        Step::Read { at } => Ok(None),
    }
}

/// The bytes of `s` that lie at and behind the cursor.
pub open spec fn remaining(m: SearchState, s: Seq<u8>) -> int {
    if m.cursor < s.len() {
        s.len() - m.cursor
    } else {
        0
    }
}

/// One while jumping, zero else: a search jumps first and scans then.
pub open spec fn jumping(phase: Phase) -> int {
    match phase {
        Phase::Probe | Phase::Align => 1,
        _ => 0,
    }
}

/// One while aligning, zero else.
pub open spec fn aligning(phase: Phase) -> int {
    match phase {
        Phase::Align => 1,
        _ => 0,
    }
}

/// The search under way, carried to its end on the stream `s`: each line
/// that the matcher asks for is read from `s` and handed to it.
pub open spec fn run(m: SearchState, s: Seq<u8>) -> (SearchState, Step)
    decreases jumping(m.phase), remaining(m, s), aligning(m.phase),
    when s.len() <= u64::MAX
{
    let (next, step) = m.advance(line_at(s, m.cursor as int));
    match step {
        Step::Read { .. } => {
            proof {
                if m.cursor < s.len() {
                    lemma_line_end(s, m.cursor as int);
                }
            }
            run(next, s)
        },
        _ => (next, step),
    }
}

/// One whole search for `target` on the stream `s`: the state it leaves and
/// its answer.
pub open spec fn search_outcome(m: SearchState, s: Seq<u8>, target: Seq<u8>) -> (
    SearchState,
    Result<Option<u64>, MatchError>,
) {
    let (begun, step) = m.begin(target);
    match step {
        Step::Read { .. } => {
            let (ended, last_step) = run(begun, s);
            (ended, outcome_of(last_step))
        },
        _ => (begun, outcome_of(step)),
    }
}

/// The searches for `targets`, one after the other in their order, on the
/// stream `s`: the state they leave and their answers, or the first failure.
pub open spec fn search_each(m: SearchState, s: Seq<u8>, targets: Seq<Seq<u8>>) -> (
    SearchState,
    Result<Seq<Option<u64>>, MatchError>,
)
    decreases targets.len(),
{
    if targets.len() == 0 {
        (m, Ok(Seq::empty()))
    } else {
        let (mid, earlier) = search_each(m, s, targets.drop_last());
        match earlier {
            Err(e) => (mid, Err(e)),
            Ok(found) => {
                let (after, answer) = search_outcome(mid, s, targets.last());
                match answer {
                    Ok(count) => (after, Ok(found.push(count))),
                    Err(e) => (after, Err(e)),
                }
            },
        }
    }
}

/// The progressive matcher.
#[derive(Debug)]
pub struct Matcher {
    stride: u64,
    cursor: u64,
    segment_start: u64,
    phase: Phase,
    target: Vec<u8>,
    last: Option<Entry>,
}

impl View for Matcher {
    type V = SearchState;

    closed spec fn view(&self) -> SearchState {
        SearchState {
            stride: self.stride,
            cursor: self.cursor,
            segment_start: self.segment_start,
            phase: self.phase,
            target: self.target@,
            last: match self.last {
                Some(entry) => Some((entry.hash@, entry.count)),
                None => None,
            },
        }
    }
}

/// `a + b`, or the largest offset where the sum exceeds it.
fn add_offset(a: u64, b: usize) -> (r: u64)
    ensures
        r == offset_add(a, b as int),
{
    a.saturating_add(b as u64)
}

impl Matcher {
    /// A matcher at the start of a stream of `length` bytes.
    pub fn new(length: u64) -> (r: Matcher)
        ensures
            r@ == SearchState::initial(stride_for(length)),
            is_stride_for(length, r@.stride),
            r@.wf(),
    {
        Matcher {
            stride: jump_distance(length),
            cursor: 0,
            segment_start: 0,
            phase: Phase::Idle,
            target: Vec::new(),
            last: None,
        }
    }

    /// The offset of the next line to read.
    pub fn cursor(&self) -> (r: u64)
        ensures
            r == self@.cursor,
    {
        self.cursor
    }

    /// The jump distance in bytes.
    pub fn stride(&self) -> (r: u64)
        ensures
            r == self@.stride,
    {
        self.stride
    }

    /// Where the segment of the search under way begins.
    pub fn segment_start(&self) -> (r: u64)
        ensures
            r == self@.segment_start,
    {
        self.segment_start
    }

    /// The last entry examined, where a search has left one.
    pub fn last_entry(&self) -> (r: Option<&Entry>)
        ensures
            match r {
                Some(entry) => self@.last == Some((entry.hash@, entry.count)),
                None => self@.last.is_none(),
            },
    {
        self.last.as_ref()
    }

    /// Whether a search is under way and waits for a line.
    pub fn is_searching(&self) -> (r: bool)
        ensures
            r == (self@.phase != Phase::Idle),
    {
        match self.phase {
            Phase::Idle => false,
            _ => true,
        }
    }

    /// The count of the last entry examined, where its hash is `hash`.
    fn cached(&self, hash: &[u8]) -> (r: Option<u64>)
        ensures
            r == match self@.last {
                Some((h, c)) if h == hash@ => Some(c),
                _ => None,
            },
    {
        match &self.last {
            Some(entry) => match compare_hashes(entry.hash.as_slice(), hash) {
                HashOrder::Equal => Some(entry.count),
                _ => None,
            },
            None => None,
        }
    }

    /// Starts the search for `hash`. Where `hash` is the hash of the last
    /// entry examined, the answer is its count and nothing is to be read.
    pub fn begin(&mut self, hash: &[u8]) -> (step: Step)
        requires
            old(self)@.wf(),
        ensures
            (final(self)@, step) == old(self)@.begin(hash@),
            final(self)@.wf(),
    {
        match self.cached(hash) {
            Some(count) => {
                self.phase = Phase::Idle;
                Step::Done { count: Some(count) }
            },
            None => {
                self.phase = Phase::Probe;
                self.segment_start = self.cursor;
                self.target = slice_to_vec(hash);
                Step::Read { at: self.cursor }
            },
        }
    }

    fn settle(&mut self, line: &[u8], found: bool) -> (step: Step)
        requires
            old(self)@.wf(),
        ensures
            (final(self)@, step) == old(self)@.settle(line@, found),
            final(self)@.wf(),
            final(self)@.cursor >= old(self)@.cursor,
    {
        self.phase = Phase::Idle;
        match count_field(line) {
            Some(count) => {
                self.cursor = add_offset(self.cursor, line.len());
                self.last = Some(Entry { hash: slice_to_vec(hash_field(line)), count });
                Step::Done { count: if found { Some(count) } else { None } }
            },
            None => {
                self.last = None;
                Step::Malformed { at: self.cursor }
            },
        }
    }

    /// Takes `line`, the line read at the cursor (empty at the end of the
    /// stream), and says what comes next. Where no search is under way the
    /// line is left aside, and nothing changes.
    ///
    /// The cursor never moves back, but for the one step from jumping to
    /// scanning, which takes it to the start of the segment.
    pub fn advance(&mut self, line: &[u8]) -> (step: Step)
        requires
            old(self)@.wf(),
        ensures
            (final(self)@, step) == old(self)@.advance(line@),
            final(self)@.wf(),
            final(self)@.segment_start >= old(self)@.segment_start,
            final(self)@.cursor >= old(self)@.cursor || (old(self)@.phase == Phase::Probe
                && final(self)@.phase == Phase::Scan && final(self)@.cursor == old(
                self,
            )@.segment_start),
    {
        match self.phase {
            Phase::Idle => Step::Done { count: None },
            Phase::Align => {
                self.cursor = add_offset(self.cursor, line.len());
                self.phase = Phase::Probe;
                Step::Read { at: self.cursor }
            },
            Phase::Probe => {
                if line.len() == 0 {
                    self.phase = Phase::Idle;
                    self.last = None;
                    return Step::Done { count: None };
                }
                match compare_hashes(hash_field(line), self.target.as_slice()) {
                    HashOrder::Equal => self.settle(line, true),
                    HashOrder::Less => {
                        self.segment_start = self.cursor;
                        self.cursor = add_offset(self.cursor, line.len()).saturating_add(self.stride);
                        self.phase = Phase::Align;
                        Step::Read { at: self.cursor }
                    },
                    HashOrder::Greater => {
                        self.cursor = self.segment_start;
                        self.phase = Phase::Scan;
                        Step::Read { at: self.cursor }
                    },
                }
            },
            Phase::Scan => {
                if line.len() == 0 {
                    self.phase = Phase::Idle;
                    self.last = None;
                    return Step::Done { count: None };
                }
                match compare_hashes(hash_field(line), self.target.as_slice()) {
                    HashOrder::Equal => self.settle(line, true),
                    HashOrder::Less => {
                        self.cursor = add_offset(self.cursor, line.len());
                        Step::Read { at: self.cursor }
                    },
                    HashOrder::Greater => self.settle(line, false),
                }
            },
        }
    }

    /// Searches the stream for `hash` and leaves the cursor where the search
    /// for the next, larger hash goes on.
    pub fn search(&mut self, stream: &ReferenceStream, hash: &[u8]) -> (r: Result<
        Option<u64>,
        MatchError,
    >)
        requires
            old(self)@.wf(),
        ensures
            (final(self)@, r) == search_outcome(old(self)@, stream@, hash@),
            final(self)@.wf(),
            final(self)@.phase == Phase::Idle,
            final(self)@.stride == old(self)@.stride,
            final(self)@.cursor >= old(self)@.cursor,
    {
        let ghost goal = search_outcome(self@, stream@, hash@);
        let n = stream.len();
        proof {
            lemma_search_moves_forward(self@, stream@, hash@);
        }
        let mut step = self.begin(hash);
        loop
            invariant
                n == stream@.len(),
                self@.wf(),
                goal == search_outcome(old(self)@, stream@, hash@),
                goal.0.stride == old(self)@.stride,
                goal.0.cursor >= old(self)@.cursor,
                match step {
                    Step::Read { at } => {
                        &&& at == self@.cursor
                        &&& self@.phase != Phase::Idle
                        &&& goal == (run(self@, stream@).0, outcome_of(run(self@, stream@).1))
                    },
                    _ => self@.phase == Phase::Idle && goal == (self@, outcome_of(step)),
                },
            decreases
                    (if step is Read { 1int } else { 0int }),
                    jumping(self@.phase),
                    remaining(self@, stream@),
                    aligning(self@.phase),
        {
            match step {
                Step::Read { at } => {
                    proof {
                        if self@.cursor < stream@.len() {
                            lemma_line_end(stream@, self@.cursor as int);
                        }
                    }
                    let line = stream.read_line_at(at);
                    step = self.advance(line);
                },
                Step::Done { count } => {
                    return Ok(count);
                },
                Step::Malformed { at } => {
                    return Err(MatchError::MalformedEntry { offset: at });
                },
            }
        }
    }

    /// Searches the stream for each of `hashes` in their order, which is to
    /// be ascending, and stops at the first failure.
    pub fn search_all(&mut self, stream: &ReferenceStream, hashes: &Vec<Vec<u8>>) -> (r: Result<
        Vec<Option<u64>>,
        MatchError,
    >)
        requires
            old(self)@.wf(),
        ensures
            final(self)@ == search_each(old(self)@, stream@, hashes.deep_view()).0,
            match r {
                Ok(found) => search_each(old(self)@, stream@, hashes.deep_view()).1 == Ok::<
                    Seq<Option<u64>>,
                    MatchError,
                >(found@),
                Err(e) => search_each(old(self)@, stream@, hashes.deep_view()).1 == Err::<
                    Seq<Option<u64>>,
                    MatchError,
                >(e),
            },
            final(self)@.wf(),
            final(self)@.stride == old(self)@.stride,
            final(self)@.cursor >= old(self)@.cursor,
    {
        let ghost targets = hashes.deep_view();
        let mut found: Vec<Option<u64>> = Vec::new();
        let mut i: usize = 0;
        assert(targets.take(0) =~= Seq::<Seq<u8>>::empty());
        while i < hashes.len()
            invariant
                i <= hashes.len(),
                targets == hashes.deep_view(),
                targets.len() == hashes.len(),
                self@.wf(),
                self@.stride == old(self)@.stride,
                self@.cursor >= old(self)@.cursor,
                search_each(old(self)@, stream@, targets.take(i as int)) == (
                    self@,
                    Ok::<Seq<Option<u64>>, MatchError>(found@),
                ),
            decreases hashes.len() - i,
        {
            proof {
                assert(targets.take(i + 1).drop_last() =~= targets.take(i as int));
                assert(targets.take(i + 1).last() == hashes[i as int]@);
            }
            match self.search(stream, hashes[i].as_slice()) {
                Ok(count) => {
                    found.push(count);
                },
                Err(e) => {
                    proof {
                        lemma_search_each_stays_failed(
                            old(self)@,
                            stream@,
                            targets,
                            i + 1,
                        );
                    }
                    return Err(e);
                },
            }
            i = i + 1;
        }
        assert(targets.take(i as int) =~= targets);
        Ok(found)
    }
}

/// Once a search has failed, the searches behind it are not made.
pub proof fn lemma_search_each_stays_failed(
    m: SearchState,
    s: Seq<u8>,
    targets: Seq<Seq<u8>>,
    k: int,
)
    requires
        0 <= k <= targets.len(),
        search_each(m, s, targets.take(k)).1 is Err,
    ensures
        search_each(m, s, targets) == search_each(m, s, targets.take(k)),
    decreases targets.len() - k,
{
    if k < targets.len() {
        assert(targets.take(k + 1).drop_last() =~= targets.take(k));
        lemma_search_each_stays_failed(m, s, targets, k + 1);
    } else {
        assert(targets.take(k) =~= targets);
    }
}

} // verus!
