use stock_snapshot::csvfmt::{encode_snapshot, WriteError};
use stock_snapshot::csvparse::parse_snapshot;
use stock_snapshot::digits::field_to_u64;
use stock_snapshot::quote::CSVQuote;

const HEADER: &[u8] = b"name,timestamp,open,close,adjclose,high,low,volume\n";

fn quote(
    name: &str,
    timestamp: u64,
    open: &str,
    close: &str,
    adjclose: &str,
    high: &str,
    low: &str,
    volume: u64,
) -> CSVQuote {
    CSVQuote::new(
        name.as_bytes().to_vec(),
        timestamp,
        open.as_bytes().to_vec(),
        close.as_bytes().to_vec(),
        adjclose.as_bytes().to_vec(),
        high.as_bytes().to_vec(),
        low.as_bytes().to_vec(),
        volume,
    )
}

#[test]
fn quote_new_keeps_fields() {
    let q = quote("AAA", 1000, "10.0", "11.0", "11.0", "12.0", "9.0", 500);
    assert_eq!(q.name, b"AAA".to_vec());
    assert_eq!(q.timestamp, 1000);
    assert_eq!(q.open, b"10.0".to_vec());
    assert_eq!(q.close, b"11.0".to_vec());
    assert_eq!(q.adjclose, b"11.0".to_vec());
    assert_eq!(q.high, b"12.0".to_vec());
    assert_eq!(q.low, b"9.0".to_vec());
    assert_eq!(q.volume, 500);
}

#[test]
fn empty_batch_encodes_to_header_only() {
    let batch: Vec<CSVQuote> = Vec::new();
    let out = encode_snapshot(&batch);
    assert_eq!(out, HEADER.to_vec());
    let back = parse_snapshot(&out).expect("header-only snapshot must parse");
    assert_eq!(back.len(), 0);
}

#[test]
fn single_record_encodes_exactly() {
    let batch = vec![quote("AAA", 1000, "10.0", "11.0", "11.0", "12.0", "9.0", 500)];
    let out = encode_snapshot(&batch);
    let mut expected = HEADER.to_vec();
    expected.extend_from_slice(b"AAA,1000,10.0,11.0,11.0,12.0,9.0,500\n");
    assert_eq!(out, expected);
}

#[test]
fn round_trip_three_records() {
    let batch = vec![
        quote("AAA", 1000, "10.0", "11.0", "11.0", "12.0", "9.0", 500),
        quote("B,Z", 2000, "1.5", "2.5", "2.25", "3.0", "1.0", 0),
        quote("C\"Q", 18446744073709551615, "0.1", "0.2", "0.3", "0.4", "0.5", 18446744073709551615),
    ];
    let out = encode_snapshot(&batch);
    let back = parse_snapshot(&out).expect("encoder output must parse");
    assert_eq!(back, batch);
}

#[test]
fn round_trip_agrees_with_csv_crate() {
    let batch = vec![
        quote("AAA", 1000, "10.0", "11.0", "11.0", "12.0", "9.0", 500),
        quote("B,Z", 2000, "1.5", "2.5", "2.25", "3.0", "1.0", 7),
    ];
    let out = encode_snapshot(&batch);
    let mut rdr = csv::ReaderBuilder::new().from_reader(out.as_slice());
    let headers: Vec<String> = rdr
        .headers()
        .expect("csv crate must read the header")
        .iter()
        .map(|s| s.to_string())
        .collect();
    assert_eq!(
        headers,
        vec!["name", "timestamp", "open", "close", "adjclose", "high", "low", "volume"]
    );
    let rows: Vec<Vec<String>> = rdr
        .records()
        .map(|r| r.expect("row must parse").iter().map(|s| s.to_string()).collect())
        .collect();
    assert_eq!(rows.len(), 2);
    assert_eq!(rows[0], vec!["AAA", "1000", "10.0", "11.0", "11.0", "12.0", "9.0", "500"]);
    assert_eq!(rows[1], vec!["B,Z", "2000", "1.5", "2.5", "2.25", "3.0", "1.0", "7"]);
}

#[test]
fn quoted_fields_with_newline_parse_back() {
    let batch = vec![quote("A\nB", 1, "1.0", "2.0", "3.0", "4.0", "0.5", 2)];
    let out = encode_snapshot(&batch);
    let back = parse_snapshot(&out).expect("quoted snapshot must parse");
    assert_eq!(back, batch);
    // The csv crate reads the same record back.
    let mut rdr = csv::ReaderBuilder::new().from_reader(out.as_slice());
    let rows: Vec<Vec<String>> = rdr
        .records()
        .map(|r| r.expect("row must parse").iter().map(|s| s.to_string()).collect())
        .collect();
    assert_eq!(rows.len(), 1);
    assert_eq!(rows[0][0], "A\nB");
}

#[test]
fn parse_rejects_wrong_header() {
    let data = b"nome,timestamp,open,close,adjclose,high,low,volume\n".to_vec();
    assert!(parse_snapshot(&data).is_none());
    let short = b"name".to_vec();
    assert!(parse_snapshot(&short).is_none());
}

#[test]
fn parse_rejects_malformed_rows() {
    let mut missing_newline = HEADER.to_vec();
    missing_newline.extend_from_slice(b"AAA,1000,1.0,2.0,3.0,4.0,5.0,500");
    assert!(parse_snapshot(&missing_newline).is_none());

    let mut bad_timestamp = HEADER.to_vec();
    bad_timestamp.extend_from_slice(b"AAA,10x0,1.0,2.0,3.0,4.0,5.0,500\n");
    assert!(parse_snapshot(&bad_timestamp).is_none());

    let mut too_few_columns = HEADER.to_vec();
    too_few_columns.extend_from_slice(b"AAA,1000,1.0,2.0\n");
    assert!(parse_snapshot(&too_few_columns).is_none());

    let mut unterminated_quote = HEADER.to_vec();
    unterminated_quote.extend_from_slice(b"\"AAA,1000,1.0,2.0,3.0,4.0,5.0,500\n");
    assert!(parse_snapshot(&unterminated_quote).is_none());
}

#[test]
fn field_to_u64_bounds() {
    assert_eq!(field_to_u64(&b"0".to_vec()), Some(0));
    assert_eq!(field_to_u64(&b"1000".to_vec()), Some(1000));
    assert_eq!(field_to_u64(&b"18446744073709551615".to_vec()), Some(u64::MAX));
    assert_eq!(field_to_u64(&b"18446744073709551616".to_vec()), None);
    assert_eq!(field_to_u64(&b"".to_vec()), None);
    assert_eq!(field_to_u64(&b"12a".to_vec()), None);
    assert_eq!(field_to_u64(&b"-1".to_vec()), None);
}

#[test]
fn write_error_kinds_stay_distinct() {
    let s = WriteError::Serialization { cause: "bad record".to_string() };
    let f = WriteError::Filesystem { cause: "read-only target".to_string() };
    assert_ne!(s, f);
    assert!(matches!(s, WriteError::Serialization { .. }));
    assert!(matches!(f, WriteError::Filesystem { .. }));
}
