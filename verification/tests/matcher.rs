use pwned_search::matcher::{MatchError, Matcher, Step};
use pwned_search::stream::ReferenceStream;

const THREE: &str = "AAAA0000000000000000000000000001:5\nBBBB0000000000000000000000000002:0\nCCCC0000000000000000000000000003:12\n";

const A1: &[u8] = b"AAAA0000000000000000000000000001";
const B2: &[u8] = b"BBBB0000000000000000000000000002";
const C3: &[u8] = b"CCCC0000000000000000000000000003";
const Z9: &[u8] = b"ZZZZ0000000000000000000000000009";
const LOW: &[u8] = b"00000000000000000000000000000000";

fn stream_of(text: &str) -> ReferenceStream {
    ReferenceStream::new(text.as_bytes().to_vec())
}

fn fresh(text: &str) -> (Matcher, ReferenceStream) {
    let stream = stream_of(text);
    (Matcher::new(stream.len()), stream)
}

/// Reads one line at `at` the way a buffered file reader does.
fn line_of(data: &[u8], at: u64) -> Vec<u8> {
    let start = at as usize;
    if start >= data.len() {
        return Vec::new();
    }
    let mut end = start;
    while end < data.len() && data[end] != b'\n' {
        end += 1;
    }
    if end < data.len() {
        end += 1;
    }
    data[start..end].to_vec()
}

/// Runs one search by hand and notes each offset that is read.
fn drive(
    matcher: &mut Matcher,
    data: &[u8],
    hash: &[u8],
    reads: &mut Vec<u64>,
) -> Result<Option<u64>, MatchError> {
    let mut step = matcher.begin(hash);
    loop {
        match step {
            Step::Read { at } => {
                assert!(matcher.is_searching());
                assert_eq!(at, matcher.cursor());
                assert!(matcher.segment_start() <= at);
                reads.push(at);
                let line = line_of(data, at);
                step = matcher.advance(&line);
            }
            Step::Done { count } => return Ok(count),
            Step::Malformed { at } => return Err(MatchError::MalformedEntry { offset: at }),
        }
    }
}

/// The plain search, written out once more.
fn naive(data: &[u8], hash: &[u8]) -> Option<u64> {
    let text = String::from_utf8(data.to_vec()).unwrap();
    for line in text.lines() {
        let mut parts = line.trim().split(':');
        let h = parts.next().unwrap();
        if h.as_bytes() == hash {
            return Some(parts.next().unwrap().parse().unwrap());
        }
    }
    None
}

#[test]
fn end_to_end_example() {
    let (mut matcher, stream) = fresh(THREE);
    assert_eq!(matcher.search(&stream, A1), Ok(Some(5)));
    assert_eq!(matcher.search(&stream, B2), Ok(Some(0)));
    assert_eq!(matcher.search(&stream, B2), Ok(Some(0)));
    assert_eq!(matcher.search(&stream, Z9), Ok(None));
}

#[test]
fn end_to_end_example_in_one_call() {
    let (mut matcher, stream) = fresh(THREE);
    let hashes = vec![A1.to_vec(), B2.to_vec(), B2.to_vec(), Z9.to_vec()];
    assert_eq!(
        matcher.search_all(&stream, &hashes),
        Ok(vec![Some(5), Some(0), Some(0), None])
    );
}

#[test]
fn repeated_hash_reads_nothing() {
    let mut matcher = Matcher::new(THREE.len() as u64);
    let data = THREE.as_bytes();
    let mut reads = Vec::new();
    assert_eq!(drive(&mut matcher, data, A1, &mut reads), Ok(Some(5)));
    assert_eq!(drive(&mut matcher, data, B2, &mut reads), Ok(Some(0)));
    let before = reads.len();
    let cursor = matcher.cursor();
    assert_eq!(matcher.begin(B2), Step::Done { count: Some(0) });
    assert!(!matcher.is_searching());
    assert_eq!(drive(&mut matcher, data, B2, &mut reads), Ok(Some(0)));
    assert_eq!(reads.len(), before);
    assert_eq!(matcher.cursor(), cursor);
    assert_eq!(drive(&mut matcher, data, Z9, &mut reads), Ok(None));
    assert!(reads.len() > before);
}

#[test]
fn repeated_absent_hash_gives_the_same_answer() {
    let (mut matcher, stream) = fresh(THREE);
    let absent = b"AAAB0000000000000000000000000000";
    assert_eq!(matcher.search(&stream, absent), Ok(None));
    assert_eq!(matcher.search(&stream, absent), Ok(None));
}

#[test]
fn overshot_entry_is_remembered() {
    let (mut matcher, stream) = fresh(THREE);
    let absent = b"AAAB0000000000000000000000000000";
    assert_eq!(matcher.search(&stream, absent), Ok(None));
    assert_eq!(matcher.cursor(), 70);
    assert_eq!(matcher.begin(B2), Step::Done { count: Some(0) });
}

#[test]
fn empty_stream_holds_nothing() {
    for hash in [LOW, A1, Z9] {
        let (mut matcher, stream) = fresh("");
        assert_eq!(matcher.stride(), 1);
        assert_eq!(matcher.search(&stream, hash), Ok(None));
        assert_eq!(matcher.search(&stream, hash), Ok(None));
    }
}

#[test]
fn single_entry_stream_boundaries() {
    let one = "BBBB0000000000000000000000000002:7\n";
    let (mut matcher, stream) = fresh(one);
    assert_eq!(matcher.search(&stream, LOW), Ok(None));
    let (mut matcher, stream) = fresh(one);
    assert_eq!(matcher.search(&stream, Z9), Ok(None));
    let (mut matcher, stream) = fresh(one);
    assert_eq!(matcher.search(&stream, B2), Ok(Some(7)));
    assert_eq!(matcher.cursor(), one.len() as u64);
}

#[test]
fn multi_entry_stream_boundaries() {
    let (mut matcher, stream) = fresh(THREE);
    assert_eq!(matcher.search(&stream, LOW), Ok(None));
    let (mut matcher, stream) = fresh(THREE);
    assert_eq!(matcher.search(&stream, Z9), Ok(None));
    let (mut matcher, stream) = fresh(THREE);
    assert_eq!(matcher.search(&stream, A1), Ok(Some(5)));
    let (mut matcher, stream) = fresh(THREE);
    assert_eq!(matcher.search(&stream, C3), Ok(Some(12)));
    let (mut matcher, stream) = fresh(THREE);
    assert_eq!(matcher.search(&stream, B2), Ok(Some(0)));
}

#[test]
fn smaller_than_first_leaves_first_entry_remembered() {
    let (mut matcher, stream) = fresh(THREE);
    assert_eq!(matcher.search(&stream, LOW), Ok(None));
    assert_eq!(matcher.cursor(), 35);
    assert_eq!(matcher.begin(A1), Step::Done { count: Some(5) });
}

#[test]
fn last_line_without_line_feed_is_read() {
    let text = "AAAA0000000000000000000000000001:5\nBBBB0000000000000000000000000002:9";
    let (mut matcher, stream) = fresh(text);
    assert_eq!(matcher.search(&stream, A1), Ok(Some(5)));
    assert_eq!(matcher.search(&stream, B2), Ok(Some(9)));
    assert_eq!(matcher.cursor(), text.len() as u64);
    assert_eq!(matcher.search(&stream, Z9), Ok(None));
}

#[test]
fn target_behind_a_jump_is_found_by_the_scan() {
    let mut text = String::new();
    for i in 0..40u64 {
        text.push_str(&format!("{:032X}:{}\n", i * 3 + 1, i + 100));
    }
    let data = text.as_bytes();
    let mut matcher = Matcher::new(data.len() as u64);
    assert_eq!(matcher.stride(), 38);
    let mut reads = Vec::new();
    let target = format!("{:032X}", 7 * 3 + 1);
    assert_eq!(
        drive(&mut matcher, data, target.as_bytes(), &mut reads),
        Ok(Some(107))
    );
    let line = 37u64;
    assert_eq!(
        reads,
        vec![
            0,
            line + 38,
            3 * line,
            4 * line + 38,
            6 * line,
            7 * line + 38,
            9 * line,
            6 * line,
            7 * line
        ]
    );
    assert_eq!(matcher.cursor(), 8 * line);
}

#[test]
fn cursor_only_moves_back_to_the_segment_start() {
    let mut text = String::new();
    for i in 0..200u64 {
        text.push_str(&format!("{:032X}:{}\n", i * 5 + 2, i));
    }
    let data = text.as_bytes();
    let mut matcher = Matcher::new(data.len() as u64);
    let mut last_end = 0u64;
    for k in [3u64, 4, 20, 20, 57, 58, 120, 150] {
        let target = format!("{:032X}", k * 5 + 2);
        let start = matcher.cursor();
        assert!(start >= last_end);
        let mut step = matcher.begin(target.as_bytes());
        let mut previous = start;
        let mut backward = 0;
        let answer = loop {
            match step {
                Step::Read { at } => {
                    assert!(at >= start);
                    assert!(at >= matcher.segment_start());
                    if at < previous {
                        backward += 1;
                        assert_eq!(at, matcher.segment_start());
                    }
                    previous = at;
                    let line = line_of(data, at);
                    step = matcher.advance(&line);
                }
                Step::Done { count } => break count,
                Step::Malformed { .. } => panic!("the stream is well formed"),
            }
        };
        assert!(backward <= 1);
        assert_eq!(answer, Some(k));
        assert!(matcher.cursor() >= start);
        last_end = matcher.cursor();
    }
}

#[test]
fn agrees_with_the_plain_search() {
    let mut text = String::new();
    for i in 0..300u64 {
        text.push_str(&format!("{:032X}:{}\n", i * 7 + 3, i * 11));
    }
    let data = text.as_bytes();
    let stream = stream_of(&text);
    let mut matcher = Matcher::new(stream.len());
    let mut by_hand = Matcher::new(data.len() as u64);
    let mut reads = Vec::new();
    let mut queries: Vec<u64> = Vec::new();
    let mut v = 0u64;
    while v < 280 * 7 {
        queries.push(v);
        if v % 3 == 0 {
            queries.push(v);
        }
        v += 13;
    }
    queries.push(290 * 7 + 3);
    queries.push(5000);
    let mut hits = 0;
    for q in queries {
        let hash = format!("{:032X}", q);
        let expected = naive(data, hash.as_bytes());
        if expected.is_some() {
            hits += 1;
        }
        assert_eq!(matcher.search(&stream, hash.as_bytes()), Ok(expected));
        assert_eq!(
            drive(&mut by_hand, data, hash.as_bytes(), &mut reads),
            Ok(expected)
        );
        assert_eq!(by_hand.cursor(), matcher.cursor());
    }
    assert!(hits > 20);
}

#[test]
fn every_entry_in_turn_is_found() {
    let mut text = String::new();
    for i in 0..50u64 {
        text.push_str(&format!("{:032X}:{}\n", i * 2, i));
    }
    let stream = stream_of(&text);
    let mut matcher = Matcher::new(stream.len());
    let hashes: Vec<Vec<u8>> = (0..50u64)
        .map(|i| format!("{:032X}", i * 2).into_bytes())
        .collect();
    let expected: Vec<Option<u64>> = (0..50u64).map(Some).collect();
    assert_eq!(matcher.search_all(&stream, &hashes), Ok(expected));
    assert_eq!(matcher.cursor(), stream.len());
}

#[test]
fn jump_past_the_end_reports_absent() {
    let two = "AAAA0000000000000000000000000001:5\nBBBB0000000000000000000000000002:3\n";
    let mut matcher = Matcher::new(two.len() as u64);
    assert_eq!(matcher.stride(), 8);
    let mut reads = Vec::new();
    assert_eq!(drive(&mut matcher, two.as_bytes(), B2, &mut reads), Ok(None));
    assert_eq!(reads, vec![0, 43, 70]);
    assert_eq!(matcher.cursor(), 70);
    assert!(matches!(matcher.begin(B2), Step::Read { at: 70 }));
}

#[test]
fn matched_line_without_count_is_malformed() {
    let text = "AAAA0000000000000000000000000001\nBBBB0000000000000000000000000002:x\n";
    let (mut matcher, stream) = fresh(text);
    assert_eq!(
        matcher.search(&stream, A1),
        Err(MatchError::MalformedEntry { offset: 0 })
    );
    assert!(!matcher.is_searching());
    let (mut matcher, stream) = fresh(text);
    assert_eq!(
        matcher.search(&stream, b"0000"),
        Err(MatchError::MalformedEntry { offset: 0 })
    );
    let text = "AAAA:1\nBBBB:2\nCCCC:x\nDDDD:4\n";
    let (mut matcher, stream) = fresh(text);
    assert_eq!(matcher.stride(), 5);
    assert_eq!(
        matcher.search(&stream, b"BBBC"),
        Err(MatchError::MalformedEntry { offset: 14 })
    );
}

#[test]
fn search_all_stops_at_the_first_failure() {
    let text = "AAAA:1\nBBBB:\nCCCC:3\n";
    let (mut matcher, stream) = fresh(text);
    let hashes = vec![b"AAAA".to_vec(), b"BBBB".to_vec(), b"CCCC".to_vec()];
    assert_eq!(
        matcher.search_all(&stream, &hashes),
        Err(MatchError::MalformedEntry { offset: 7 })
    );
}

#[test]
fn smaller_lines_need_no_count() {
    let text = "AAAA\nBBBB:4\nCCCC:1\nDDDD:2\n";
    let (mut matcher, stream) = fresh(text);
    assert_eq!(matcher.stride(), 5);
    assert_eq!(matcher.search(&stream, b"BBBB"), Ok(Some(4)));
    assert_eq!(matcher.cursor(), 12);
}

#[test]
fn new_matcher_stands_at_the_start() {
    let matcher = Matcher::new(106);
    assert_eq!(matcher.cursor(), 0);
    assert_eq!(matcher.segment_start(), 0);
    assert_eq!(matcher.stride(), 10);
    assert!(!matcher.is_searching());
}

#[test]
fn stream_reads_lines() {
    let stream = stream_of("ab:1\ncd:2\nef");
    assert_eq!(stream.len(), 12);
    assert_eq!(stream.read_line_at(0), b"ab:1\n");
    assert_eq!(stream.read_line_at(2), b":1\n");
    assert_eq!(stream.read_line_at(5), b"cd:2\n");
    assert_eq!(stream.read_line_at(10), b"ef");
    assert_eq!(stream.read_line_at(12), b"");
    assert_eq!(stream.read_line_at(99), b"");
}

#[test]
fn last_entry_examined() {
    let (mut matcher, stream) = fresh(THREE);
    assert!(matcher.last_entry().is_none());
    assert_eq!(matcher.search(&stream, A1), Ok(Some(5)));
    let entry = matcher.last_entry().unwrap();
    assert_eq!(entry.hash, A1);
    assert_eq!(entry.count, 5);
    assert_eq!(matcher.search(&stream, b"AAAB"), Ok(None));
    let entry = matcher.last_entry().unwrap();
    assert_eq!(entry.hash, B2);
    assert_eq!(entry.count, 0);
    assert_eq!(matcher.search(&stream, Z9), Ok(None));
    assert!(matcher.last_entry().is_none());
}

#[test]
fn line_without_a_search_is_left_aside() {
    let mut matcher = Matcher::new(THREE.len() as u64);
    assert_eq!(
        matcher.advance(b"AAAA0000000000000000000000000001:5\n"),
        Step::Done { count: None }
    );
    assert_eq!(matcher.cursor(), 0);
    assert!(matcher.last_entry().is_none());
    assert!(!matcher.is_searching());
}

#[test]
fn entry_left_behind_the_cursor_is_not_found() {
    let text = "A:1\nC:2\nD:3\nE:4\n";
    let (mut matcher, stream) = fresh(text);
    assert_eq!(matcher.stride(), 4);
    assert_eq!(matcher.search(&stream, b"B"), Ok(None));
    assert_eq!(matcher.cursor(), 8);
    assert_eq!(matcher.search(&stream, b"BB"), Ok(None));
    assert_eq!(matcher.cursor(), 12);
    assert_eq!(matcher.last_entry().unwrap().hash, b"D");
    assert_eq!(matcher.search(&stream, b"C"), Ok(None));
    let (mut matcher, stream) = fresh(text);
    assert_eq!(matcher.search(&stream, b"B"), Ok(None));
    assert_eq!(matcher.search(&stream, b"C"), Ok(Some(2)));
}
