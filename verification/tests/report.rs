use pwned_search::account::AccountRecord;
use pwned_search::batch::{MatchResult, QueryBatch};
use pwned_search::report::{format_decimal, report_header, report_row};
use pwned_search::stream::ReferenceStream;
use pwned_search::text::parse_decimal;

#[test]
fn numbers_are_written_in_decimal() {
    assert_eq!(format_decimal(0), b"0");
    assert_eq!(format_decimal(7), b"7");
    assert_eq!(format_decimal(10), b"10");
    assert_eq!(format_decimal(512), b"512");
    assert_eq!(format_decimal(66048), b"66048");
    assert_eq!(format_decimal(u64::MAX), b"18446744073709551615");
}

#[test]
fn written_numbers_read_back() {
    for n in [0u64, 1, 9, 10, 99, 100, 12345, 4294967295, u64::MAX - 1, u64::MAX] {
        assert_eq!(parse_decimal(&format_decimal(n), u64::MAX), Some(n));
        assert_eq!(format_decimal(n), n.to_string().into_bytes());
    }
}

#[test]
fn header_row() {
    assert_eq!(report_header(), b"RID\tName\tuserAccountControl\tPwned\n");
}

#[test]
fn account_row() {
    let found = MatchResult {
        record: AccountRecord {
            id: 1104,
            name: b"svc-backup".to_vec(),
            password_hash: b"AAAA0000000000000000000000000001".to_vec(),
            control_flags: 66048,
        },
        count: 37,
    };
    assert_eq!(report_row(&found), b"1104\tsvc-backup\t66048\t37\n");
}

#[test]
fn report_of_an_audit() {
    let stream = ReferenceStream::new(
        b"AAAA0000000000000000000000000001:5\nBBBB0000000000000000000000000002:0\nCCCC0000000000000000000000000003:12\n"
            .to_vec(),
    );
    let lines: Vec<Vec<u8>> = vec![
        b"500 Administrator bbbb0000000000000000000000000002 512".to_vec(),
        b"501 Guest aaaa0000000000000000000000000001 514".to_vec(),
        b"1000 alice aaaa0000000000000000000000000001 512".to_vec(),
        b"1001 bob 99990000000000000000000000000000 512".to_vec(),
    ];
    let batch = QueryBatch::prepare(&lines).unwrap();
    let found = batch.audit(&stream).unwrap();
    let mut text = report_header();
    for m in &found {
        text.extend_from_slice(&report_row(m));
    }
    assert_eq!(
        String::from_utf8(text).unwrap(),
        "RID\tName\tuserAccountControl\tPwned\n1000\talice\t512\t5\n500\tAdministrator\t512\t0\n"
    );
}
