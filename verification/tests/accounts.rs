use pwned_search::account::{parse_account, to_uppercase, AccountRecord, LineError};
use pwned_search::batch::{copy_record, precedes, PrepareError, QueryBatch};
use pwned_search::flags::{is_disabled, UAC_ACCOUNT_DISABLE, UAC_NORMAL_ACCOUNT};
use pwned_search::matcher::MatchError;
use pwned_search::stream::ReferenceStream;

fn lines_of(text: &[&str]) -> Vec<Vec<u8>> {
    text.iter().map(|l| l.as_bytes().to_vec()).collect()
}

fn parsed(line: &str) -> AccountRecord {
    parse_account(line.as_bytes()).unwrap().unwrap()
}

#[test]
fn disabled_bit() {
    assert_eq!(UAC_ACCOUNT_DISABLE, 2);
    assert_eq!(UAC_NORMAL_ACCOUNT, 512);
    assert!(is_disabled(2));
    assert!(is_disabled(514));
    assert!(is_disabled(u32::MAX));
    assert!(!is_disabled(0));
    assert!(!is_disabled(512));
    assert!(!is_disabled(1));
    assert!(!is_disabled(4));
}

#[test]
fn upper_case() {
    assert_eq!(to_uppercase(b"31d6cfe0"), b"31D6CFE0");
    assert_eq!(to_uppercase(b"azAZ09{`"), b"AZAZ09{`");
    assert_eq!(to_uppercase(b""), b"");
}

#[test]
fn account_line() {
    let r = parsed("500\tAdministrator\t31d6cfe0d16ae931b73c59d7e0c089c0\t512");
    assert_eq!(r.id, 500);
    assert_eq!(r.name, b"Administrator");
    assert_eq!(r.password_hash, b"31D6CFE0D16AE931B73C59D7E0C089C0");
    assert_eq!(r.control_flags, 512);
    let r = parsed("  7   bob  AbCd   66048   extra columns\n");
    assert_eq!(r.id, 7);
    assert_eq!(r.name, b"bob");
    assert_eq!(r.password_hash, b"ABCD");
    assert_eq!(r.control_flags, 66048);
    let c = copy_record(&r);
    assert_eq!(c.id, 7);
    assert_eq!(c.name, b"bob");
    assert_eq!(c.password_hash, b"ABCD");
    assert_eq!(c.control_flags, 66048);
}

#[test]
fn disabled_account_is_left_out() {
    assert!(parse_account(b"1 guest aaaa 2").unwrap().is_none());
    assert!(parse_account(b"1 guest aaaa 514").unwrap().is_none());
    assert!(parse_account(b"not-a-number guest aaaa 514").unwrap().is_none());
    assert!(parse_account(b"1 guest aaaa 512").unwrap().is_some());
}

#[test]
fn faulty_account_lines() {
    assert_eq!(parse_account(b"").unwrap_err(), LineError::MissingField);
    assert_eq!(parse_account(b"   \n").unwrap_err(), LineError::MissingField);
    assert_eq!(parse_account(b"1 a b").unwrap_err(), LineError::MissingField);
    assert_eq!(parse_account(b"1 a b ").unwrap_err(), LineError::MissingField);
    assert_eq!(parse_account(b"1 a b x").unwrap_err(), LineError::InvalidControlFlags);
    assert_eq!(
        parse_account(b"1 a b 4294967296").unwrap_err(),
        LineError::InvalidControlFlags
    );
    assert_eq!(parse_account(b"1 a b -1").unwrap_err(), LineError::InvalidControlFlags);
    assert_eq!(parse_account(b"x a b 512").unwrap_err(), LineError::InvalidId);
    assert_eq!(
        parse_account(b"18446744073709551616 a b 512").unwrap_err(),
        LineError::InvalidId
    );
}

#[test]
fn order_of_hashes() {
    assert!(precedes(b"AAAA", b"AAAB"));
    assert!(!precedes(b"AAAB", b"AAAA"));
    assert!(!precedes(b"AAAA", b"AAAA"));
    assert!(precedes(b"AAA", b"AAAA"));
}

#[test]
fn batch_is_sorted_and_counts() {
    let lines = lines_of(&[
        "1 one cccc 512",
        "2 two aaaa 512",
        "3 three bbbb 514",
        "4 four bbbb 512",
        "5 five AAAA 66048",
        "6 six 0abc 512",
    ]);
    let batch = QueryBatch::prepare(&lines).unwrap();
    assert_eq!(batch.total(), 6);
    assert_eq!(batch.len(), 5);
    let hashes: Vec<&[u8]> = (0..batch.len())
        .map(|i| batch.get(i).password_hash.as_slice())
        .collect();
    let expected: Vec<&[u8]> = vec![b"0ABC", b"AAAA", b"AAAA", b"BBBB", b"CCCC"];
    assert_eq!(hashes, expected);
    let mut ids: Vec<u64> = (0..batch.len()).map(|i| batch.get(i).id).collect();
    assert_eq!(ids[0], 6);
    assert_eq!(ids[3], 4);
    assert_eq!(ids[4], 1);
    ids.sort();
    assert_eq!(ids, vec![1, 2, 4, 5, 6]);
}

#[test]
fn empty_dump_gives_empty_batch() {
    let batch = QueryBatch::prepare(&Vec::new()).unwrap();
    assert_eq!(batch.total(), 0);
    assert_eq!(batch.len(), 0);
}

#[test]
fn first_faulty_line_ends_the_batch() {
    let lines = lines_of(&["1 one cccc 512", "2 two aaaa", "x three bbbb 512"]);
    assert_eq!(
        QueryBatch::prepare(&lines).unwrap_err(),
        PrepareError { line: 1, kind: LineError::MissingField }
    );
    let lines = lines_of(&["1 one cccc 512", "x two aaaa 2", "x three bbbb 512", "4 f c y"]);
    assert_eq!(
        QueryBatch::prepare(&lines).unwrap_err(),
        PrepareError { line: 2, kind: LineError::InvalidId }
    );
    let lines = lines_of(&["1 one cccc 5x"]);
    assert_eq!(
        QueryBatch::prepare(&lines).unwrap_err(),
        PrepareError { line: 0, kind: LineError::InvalidControlFlags }
    );
}

#[test]
fn disabled_account_never_reported() {
    let stream = ReferenceStream::new(
        b"AAAA0000000000000000000000000001:5\nBBBB0000000000000000000000000002:3\nCCCC0000000000000000000000000003:12\n"
            .to_vec(),
    );
    let lines = lines_of(&[
        "1001 alice aaaa0000000000000000000000000001 2",
        "1002 bob aaaa0000000000000000000000000001 512",
        "1003 carol dddd0000000000000000000000000004 512",
        "1004 dave bbbb0000000000000000000000000002 514",
    ]);
    let batch = QueryBatch::prepare(&lines).unwrap();
    assert_eq!(batch.total(), 4);
    assert_eq!(batch.len(), 2);
    let found = batch.audit(&stream).unwrap();
    assert_eq!(found.len(), 1);
    assert_eq!(found[0].record.id, 1002);
    assert_eq!(found[0].record.name, b"bob");
    assert_eq!(found[0].record.control_flags, 512);
    assert_eq!(found[0].count, 5);
}

#[test]
fn audit_reports_shared_passwords_for_each_account() {
    let stream = ReferenceStream::new(
        b"AAAA0000000000000000000000000001:5\nBBBB0000000000000000000000000002:0\nCCCC0000000000000000000000000003:12\n"
            .to_vec(),
    );
    let lines = lines_of(&[
        "4 d zzzz0000000000000000000000000009 512",
        "3 c bbbb0000000000000000000000000002 512",
        "1 a AAAA0000000000000000000000000001 512",
        "2 b bbbb0000000000000000000000000002 66048",
    ]);
    let batch = QueryBatch::prepare(&lines).unwrap();
    let found = batch.audit(&stream).unwrap();
    let rows: Vec<(u64, u32, u64)> = found
        .iter()
        .map(|m| (m.record.id, m.record.control_flags, m.count))
        .collect();
    assert_eq!(rows, vec![(1, 512, 5), (3, 512, 0), (2, 66048, 0)]);
}

#[test]
fn audit_fails_on_a_malformed_stream() {
    let stream = ReferenceStream::new(b"AAAA:five\n".to_vec());
    let batch = QueryBatch::prepare(&lines_of(&["1 a aaaa 512"])).unwrap();
    assert_eq!(
        batch.audit(&stream).unwrap_err(),
        MatchError::MalformedEntry { offset: 0 }
    );
}
