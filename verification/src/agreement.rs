//! What the matcher finds in a sorted stream, held against the plain search
//! that reads the stream from its first line to its last.

use vstd::prelude::*;
use crate::entry::entry_hash;
use crate::matcher::{
    aligning, jumping, offset_add, remaining, run, search_each, search_outcome, MatchError,
    Phase, SearchState, Step,
};
use crate::order::{
    lemma_lex_asymmetric, lemma_lex_irreflexive, lemma_lex_total, lemma_lex_transitive, lex_le,
    lex_less, order_of, HashOrder,
};
use crate::stream::{
    is_boundary, lemma_line_end, lemma_lookup_from_boundary, lemma_lookup_from_earlier,
    lemma_lookup_none_behind_greater, lemma_lookup_skips, line_at, line_end, lookup, lookup_from,
    starts_line, strictly_sorted, well_formed,
};

verus! {

/// Every line that begins before `pos` has a hash that does not exceed `hash`.
pub open spec fn passed(s: Seq<u8>, pos: int, hash: Seq<u8>) -> bool {
    forall|q: int|
        #[trigger] starts_line(s, q) && q < pos ==> lex_le(entry_hash(line_at(s, q)), hash)
}

/// The last entry examined is an entry of the stream, and no line before the
/// cursor has a larger hash. A matcher that has examined no entry, or has
/// left the last one behind, stands at the start or at the end.
pub open spec fn cache_sound(m: SearchState, s: Seq<u8>) -> bool {
    match m.last {
        Some((hash, count)) => lookup(s, hash) == Some(count) && passed(s, m.cursor as int, hash),
        None => m.cursor == 0 || m.cursor >= s.len(),
    }
}

/// The matcher stands between two searches on the stream `s`: its cursor at
/// the start of a line or at the end, its last entry one of the stream.
pub open spec fn anchored(m: SearchState, s: Seq<u8>) -> bool {
    &&& m.wf()
    &&& m.phase == Phase::Idle
    &&& is_boundary(s, m.cursor as int)
    &&& cache_sound(m, s)
}

/// Where the next probe stands after the probe at `pos` met a smaller hash:
/// behind that line, a jump of `stride` bytes on, and then behind the line
/// that the jump landed in.
pub open spec fn next_probe(s: Seq<u8>, stride: u64, pos: u64) -> u64 {
    let landed = offset_add(pos, line_at(s, pos as int).len() + stride);
    offset_add(landed, line_at(s, landed as int).len() as int)
}

/// The probes that start at `pos` meet only hashes smaller than `target`
/// until they have left the stream, so that no segment is ever scanned.
pub open spec fn probes_run_out(s: Seq<u8>, stride: u64, pos: u64, target: Seq<u8>) -> bool
    decreases (if pos < s.len() { s.len() - pos } else { 0 }),
    when s.len() <= u64::MAX
{
    if pos >= s.len() {
        true
    } else if lex_less(entry_hash(line_at(s, pos as int)), target) {
        proof {
            lemma_line_end(s, pos as int);
        }
        probes_run_out(s, stride, next_probe(s, stride, pos), target)
    } else {
        false
    }
}

/// The search for `target` can reach it: the last entry examined has that
/// hash, or the target stands at or behind the cursor and the probes meet an
/// entry that is not smaller before they leave the stream.
pub open spec fn reachable(m: SearchState, s: Seq<u8>, target: Seq<u8>) -> bool {
    ||| m.begin(target).1 is Done
    ||| (lookup_from(s, m.cursor as int, target).is_some() && !probes_run_out(
        s,
        m.stride,
        m.cursor,
        target,
    ))
}

/// A matcher that has not searched yet is anchored on every stream.
pub proof fn lemma_initial_is_anchored(stride: u64, s: Seq<u8>)
    requires
        stride >= 1,
    ensures
        anchored(SearchState::initial(stride), s),
{
}

/// A search under way ends, with the matcher idle and its cursor at or behind
/// the start of its segment; an answer with a count leaves the target and
/// that count as the last entry examined.
pub proof fn lemma_run_ends(m: SearchState, s: Seq<u8>)
    requires
        s.len() <= u64::MAX,
        m.wf(),
        m.phase != Phase::Idle,
    ensures
        !(run(m, s).1 is Read),
        run(m, s).0.phase == Phase::Idle,
        run(m, s).0.wf(),
        run(m, s).0.stride == m.stride,
        run(m, s).0.target == m.target,
        run(m, s).0.cursor >= m.segment_start,
        run(m, s).0.segment_start >= m.segment_start,
        forall|c: u64|
            run(m, s).1 == (Step::Done { count: Some(c) }) ==> run(m, s).0.last == Some(
                (m.target, c),
            ),
        run(m, s).1 == (Step::Done { count: None }) ==> !(run(m, s).0.begin(m.target).1 is Done),
    decreases jumping(m.phase), remaining(m, s), aligning(m.phase),
{
    let (next, step) = m.advance(line_at(s, m.cursor as int));
    if m.cursor < s.len() {
        lemma_line_end(s, m.cursor as int);
    }
    if step is Read {
        lemma_run_ends(next, s);
    }
}

/// In a sorted stream no line before the end of a line has a larger hash
/// than that line.
proof fn lemma_passed_behind_line(s: Seq<u8>, pos: int)
    requires
        strictly_sorted(s),
        starts_line(s, pos),
    ensures
        passed(s, line_end(s, pos), entry_hash(line_at(s, pos))),
{
    lemma_line_end(s, pos);
    assert forall|q: int| #[trigger]
        starts_line(s, q) && q < line_end(s, pos) implies lex_le(
        entry_hash(line_at(s, q)),
        entry_hash(line_at(s, pos)),
    ) by {
        if pos < q {
            assert(is_boundary(s, q));
        }
    }
}

/// Scanning from the start of a line answers what the plain search from that
/// line finds.
proof fn lemma_scan(m: SearchState, s: Seq<u8>)
    requires
        s.len() <= u64::MAX,
        well_formed(s),
        strictly_sorted(s),
        m.wf(),
        m.phase == Phase::Scan,
        is_boundary(s, m.cursor as int),
    ensures
        run(m, s).1 == (Step::Done { count: lookup_from(s, m.cursor as int, m.target) }),
        is_boundary(s, run(m, s).0.cursor as int),
        cache_sound(run(m, s).0, s),
    decreases remaining(m, s),
{
    let pos = m.cursor as int;
    let line = line_at(s, pos);
    let (next, step) = m.advance(line);
    if pos < s.len() {
        lemma_line_end(s, pos);
        assert(starts_line(s, pos));
        lemma_passed_behind_line(s, pos);
        let hash = entry_hash(line);
        match order_of(hash, m.target) {
            HashOrder::Equal => {
                lemma_lookup_from_boundary(s, pos, hash);
            },
            HashOrder::Less => {
                lemma_lex_asymmetric(hash, m.target);
                lemma_scan(next, s);
            },
            HashOrder::Greater => {
                lemma_lex_total(hash, m.target);
                lemma_lookup_none_behind_greater(s, pos, line_end(s, pos), m.target);
                lemma_lookup_from_boundary(s, pos, hash);
            },
        }
    }
}

/// No line that begins before the line at `pos` has the hash `target`, where
/// the line at `pos` has a hash that is not beyond `target`.
proof fn lemma_earlier_lines_differ(s: Seq<u8>, pos: int, target: Seq<u8>)
    requires
        strictly_sorted(s),
        starts_line(s, pos),
        entry_hash(line_at(s, pos)) == target || lex_less(entry_hash(line_at(s, pos)), target),
    ensures
        forall|q: int|
            0 <= q < pos && #[trigger] starts_line(s, q) ==> entry_hash(line_at(s, q)) != target,
{
    assert forall|q: int| 0 <= q < pos && #[trigger] starts_line(s, q) implies entry_hash(
        line_at(s, q),
    ) != target by {
        let hq = entry_hash(line_at(s, q));
        let hp = entry_hash(line_at(s, pos));
        if hp != target {
            lemma_lex_transitive(hq, hp, target);
        }
        lemma_lex_asymmetric(hq, target);
    }
}

/// Jumping from the start of a line answers what the plain search from
/// `origin` finds, unless the probes run out.
proof fn lemma_probe(m: SearchState, s: Seq<u8>, origin: int)
    requires
        s.len() <= u64::MAX,
        well_formed(s),
        strictly_sorted(s),
        m.wf(),
        m.phase == Phase::Probe,
        is_boundary(s, m.cursor as int),
        is_boundary(s, m.segment_start as int),
        lookup_from(s, m.segment_start as int, m.target) == lookup_from(s, origin, m.target),
    ensures
        run(m, s).1 == (Step::Done {
            count: if probes_run_out(s, m.stride, m.cursor, m.target) {
                None
            } else {
                lookup_from(s, origin, m.target)
            },
        }),
        is_boundary(s, run(m, s).0.cursor as int),
        cache_sound(run(m, s).0, s),
        probes_run_out(s, m.stride, m.cursor, m.target) ==> run(m, s).0.cursor >= s.len(),
    decreases remaining(m, s),
{
    let pos = m.cursor as int;
    let seg = m.segment_start as int;
    let line = line_at(s, pos);
    let (next, step) = m.advance(line);
    if pos < s.len() {
        lemma_line_end(s, pos);
        assert(starts_line(s, pos));
        lemma_passed_behind_line(s, pos);
        let hash = entry_hash(line);
        match order_of(hash, m.target) {
            HashOrder::Equal => {
                lemma_lex_irreflexive(hash);
                lemma_earlier_lines_differ(s, pos, m.target);
                lemma_lookup_skips(s, seg, pos, m.target);
                lemma_lookup_from_boundary(s, pos, hash);
            },
            HashOrder::Less => {
                lemma_earlier_lines_differ(s, pos, m.target);
                lemma_lookup_skips(s, seg, pos, m.target);
                let landed = next.cursor as int;
                let (probe, read) = next.advance(line_at(s, landed));
                if landed < s.len() {
                    lemma_line_end(s, landed);
                }
                assert(run(m, s) == run(next, s));
                assert(run(next, s) == run(probe, s));
                assert(probe.cursor == next_probe(s, m.stride, m.cursor));
                lemma_probe(probe, s, origin);
            },
            HashOrder::Greater => {
                lemma_scan(next, s);
            },
        }
    }
}

/// What a search answers on a sorted stream: the count that the plain search
/// finds, where the target can be reached, and `None` where it cannot. The
/// search leaves the matcher anchored, with its cursor no further back.
pub proof fn lemma_search_result(m: SearchState, s: Seq<u8>, target: Seq<u8>)
    requires
        s.len() <= u64::MAX,
        well_formed(s),
        strictly_sorted(s),
        anchored(m, s),
    ensures
        search_outcome(m, s, target).1 == Ok::<Option<u64>, MatchError>(
            if reachable(m, s, target) {
                lookup(s, target)
            } else {
                None
            },
        ),
        anchored(search_outcome(m, s, target).0, s),
        search_outcome(m, s, target).0.cursor >= m.cursor,
        search_outcome(m, s, target).0.stride == m.stride,
        forall|c: u64|
            search_outcome(m, s, target).1 == Ok::<Option<u64>, MatchError>(Some(c))
                ==> search_outcome(m, s, target).0.last == Some((target, c)),
{
    let (begun, step) = m.begin(target);
    if step is Read {
        lemma_run_ends(begun, s);
        lemma_probe(begun, s, m.cursor as int);
        if lookup_from(s, m.cursor as int, target).is_some() {
            lemma_lookup_from_boundary(s, m.cursor as int, target);
        }
    }
}

/// A search moves the cursor forward or leaves it, whatever the stream holds.
pub proof fn lemma_search_moves_forward(m: SearchState, s: Seq<u8>, target: Seq<u8>)
    requires
        s.len() <= u64::MAX,
        m.wf(),
    ensures
        search_outcome(m, s, target).0.wf(),
        search_outcome(m, s, target).0.phase == Phase::Idle,
        search_outcome(m, s, target).0.stride == m.stride,
        search_outcome(m, s, target).0.cursor >= m.cursor,
{
    let (begun, step) = m.begin(target);
    if step is Read {
        lemma_run_ends(begun, s);
    }
}

/// A search that has answered with a count answers the same hash again at
/// once, on whatever stream: it asks for no line and changes nothing.
pub proof fn lemma_repeat_reads_nothing(m: SearchState, s: Seq<u8>, target: Seq<u8>, count: u64)
    requires
        s.len() <= u64::MAX,
        m.wf(),
        search_outcome(m, s, target).1 == Ok::<Option<u64>, MatchError>(Some(count)),
    ensures
        ({
            let after = search_outcome(m, s, target).0;
            &&& after.begin(target) == (after, Step::Done { count: Some(count) })
            &&& forall|other: Seq<u8>|
                #[trigger] search_outcome(after, other, target) == (
                    after,
                    Ok::<Option<u64>, MatchError>(Some(count)),
                )
        }),
{
    let (begun, step) = m.begin(target);
    if step is Read {
        lemma_run_ends(begun, s);
    }
}

/// On a sorted stream, searching the same hash twice in a row gives the same
/// answer both times.
pub proof fn lemma_repeat_same_answer(m: SearchState, s: Seq<u8>, target: Seq<u8>)
    requires
        s.len() <= u64::MAX,
        well_formed(s),
        strictly_sorted(s),
        anchored(m, s),
    ensures
        search_outcome(search_outcome(m, s, target).0, s, target).1 == search_outcome(
            m,
            s,
            target,
        ).1,
{
    let (after, first) = search_outcome(m, s, target);
    lemma_search_result(m, s, target);
    lemma_search_result(after, s, target);
    let (begun, step) = m.begin(target);
    match first {
        Ok(Some(count)) => {
            lemma_repeat_reads_nothing(m, s, target, count);
        },
        _ => {
            if lookup(s, target).is_some() {
                assert(step is Read);
                lemma_run_ends(begun, s);
                lemma_probe(begun, s, m.cursor as int);
                if lookup_from(s, after.cursor as int, target).is_some() {
                    lemma_lookup_from_earlier(s, m.cursor as int, after.cursor as int, target);
                }
            }
        },
    }
}

/// On a sorted stream the matcher answers what the plain search answers,
/// for every target that is not in the stream and for every target in it
/// that the search can reach.
pub proof fn lemma_search_agrees_with_lookup(m: SearchState, s: Seq<u8>, target: Seq<u8>)
    requires
        s.len() <= u64::MAX,
        well_formed(s),
        strictly_sorted(s),
        anchored(m, s),
        lookup(s, target).is_some() ==> reachable(m, s, target),
    ensures
        search_outcome(m, s, target).1 == Ok::<Option<u64>, MatchError>(lookup(s, target)),
{
    lemma_search_result(m, s, target);
}

/// On a sorted stream the matcher answers what the plain search answers for
/// a target that is not smaller than the last entry examined, unless the
/// stream holds the target and the probes run out before they reach it.
pub proof fn lemma_search_agrees_in_order(m: SearchState, s: Seq<u8>, target: Seq<u8>)
    requires
        s.len() <= u64::MAX,
        well_formed(s),
        strictly_sorted(s),
        anchored(m, s),
        match m.last {
            Some((hash, _)) => lex_le(hash, target),
            None => true,
        },
        lookup(s, target).is_some() ==> m.begin(target).1 is Done || !probes_run_out(
            s,
            m.stride,
            m.cursor,
            target,
        ),
    ensures
        search_outcome(m, s, target).1 == Ok::<Option<u64>, MatchError>(lookup(s, target)),
{
    if lookup(s, target).is_some() && !(m.begin(target).1 is Done) {
        match m.last {
            Some((hash, _)) => {
                assert forall|q: int|
                    0 <= q < m.cursor && #[trigger] starts_line(s, q) implies entry_hash(
                    line_at(s, q),
                ) != target by {
                    let hq = entry_hash(line_at(s, q));
                    if hq != hash {
                        lemma_lex_transitive(hq, hash, target);
                    }
                    lemma_lex_asymmetric(hq, target);
                }
                lemma_lookup_skips(s, 0, m.cursor as int, target);
            },
            None => {},
        }
    }
    lemma_search_agrees_with_lookup(m, s, target);
}

/// In an empty stream a matcher that has examined no entry finds nothing.
pub proof fn lemma_empty_stream_holds_nothing(m: SearchState, target: Seq<u8>)
    requires
        m.last.is_none(),
    ensures
        search_outcome(m, Seq::<u8>::empty(), target).1 == Ok::<Option<u64>, MatchError>(None),
        search_outcome(m, Seq::<u8>::empty(), target).0.last.is_none(),
        search_outcome(m, Seq::<u8>::empty(), target).0.cursor == m.cursor,
{
    let s = Seq::<u8>::empty();
    let (begun, step) = m.begin(target);
    assert(line_at(s, begun.cursor as int) =~= Seq::<u8>::empty());
    assert(run(begun, s) == begun.exhaust());
}

/// On a sorted stream a hash that no line holds is reported absent, from
/// wherever the matcher stands.
pub proof fn lemma_absent_is_reported_absent(m: SearchState, s: Seq<u8>, target: Seq<u8>)
    requires
        s.len() <= u64::MAX,
        well_formed(s),
        strictly_sorted(s),
        anchored(m, s),
        lookup(s, target).is_none(),
    ensures
        search_outcome(m, s, target).1 == Ok::<Option<u64>, MatchError>(None),
{
    lemma_search_agrees_with_lookup(m, s, target);
}

/// On a sorted stream the first search answers what the plain search answers
/// for every target that is not beyond the first entry: the first entry
/// itself is found, and a smaller hash is reported absent.
pub proof fn lemma_first_search_up_to_first_entry(stride: u64, s: Seq<u8>, target: Seq<u8>)
    requires
        0 < s.len() <= u64::MAX,
        well_formed(s),
        strictly_sorted(s),
        stride >= 1,
        lex_le(target, entry_hash(line_at(s, 0))),
    ensures
        search_outcome(SearchState::initial(stride), s, target).1 == Ok::<
            Option<u64>,
            MatchError,
        >(lookup(s, target)),
        target == entry_hash(line_at(s, 0)) ==> lookup(s, target).is_some(),
{
    let first = entry_hash(line_at(s, 0));
    assert(starts_line(s, 0));
    if target == first {
        lemma_lex_irreflexive(first);
    } else {
        lemma_lex_asymmetric(target, first);
    }
    lemma_search_agrees_in_order(SearchState::initial(stride), s, target);
}

/// On a sorted stream a run of searches answers, search by search, what the
/// plain search answers, where each target that the stream holds can be
/// reached from the state that the searches before it have left.
pub proof fn lemma_search_each_agrees(m: SearchState, s: Seq<u8>, targets: Seq<Seq<u8>>)
    requires
        s.len() <= u64::MAX,
        well_formed(s),
        strictly_sorted(s),
        anchored(m, s),
        forall|i: int|
            0 <= i < targets.len() && lookup(s, #[trigger] targets[i]).is_some() ==> reachable(
                search_each(m, s, targets.take(i)).0,
                s,
                targets[i],
            ),
    ensures
        search_each(m, s, targets).1 == Ok::<Seq<Option<u64>>, MatchError>(
            Seq::new(targets.len(), |i: int| lookup(s, targets[i])),
        ),
        anchored(search_each(m, s, targets).0, s),
        search_each(m, s, targets).0.cursor >= m.cursor,
    decreases targets.len(),
{
    if targets.len() > 0 {
        let front = targets.drop_last();
        let n = front.len() as int;
        assert forall|i: int| 0 <= i < front.len() && lookup(s, #[trigger] front[i]).is_some()
            implies reachable(search_each(m, s, front.take(i)).0, s, front[i]) by {
            assert(front.take(i) =~= targets.take(i));
            assert(front[i] == targets[i]);
        }
        lemma_search_each_agrees(m, s, front);
        let mid = search_each(m, s, front).0;
        assert(targets.take(n) =~= front);
        assert(targets[n] == targets.last());
        lemma_search_agrees_with_lookup(mid, s, targets.last());
        lemma_search_result(mid, s, targets.last());
        assert(Seq::new(front.len(), |i: int| lookup(s, front[i])).push(lookup(s, targets.last()))
            =~= Seq::new(targets.len(), |i: int| lookup(s, targets[i])));
    } else {
        assert(Seq::<Option<u64>>::empty() =~= Seq::new(
            targets.len(),
            |i: int| lookup(s, targets[i]),
        ));
    }
}

} // verus!
