use std::io::{self, BufRead};

use lib::record::{HeaderRecord, RecordParser};

/// Reads `input` line by line, as a program reading a capture does, and
/// collects the records the parser completes.
fn read_records(input: &[u8]) -> io::Result<Vec<HeaderRecord>> {
    let mut reader = io::BufReader::new(input);
    let mut parser = RecordParser::new();
    let mut out = Vec::new();
    let mut line = String::new();
    loop {
        line.clear();
        if reader.read_line(&mut line)? == 0 {
            break;
        }
        if let Some(r) = parser.feed_line(&line) {
            out.push(r);
        }
    }
    if let Some(r) = parser.finish() {
        out.push(r);
    }
    Ok(out)
}

#[test]
fn records_reads_two_blocks_separated_by_blank_line() {
    let input = b"HTTP/1.1 200 OK\r\nCache-Control: no-store\r\n\r\nHTTP/1.1 304 Not Modified\r\nETag: \"x\"\r\n";
    let records: Vec<_> = read_records(&input[..]).unwrap();
    assert_eq!(records.len(), 2);
    assert_eq!(records[0].get("cache-control"), Some("no-store"));
    assert_eq!(records[1].status_line.as_deref(), Some("HTTP/1.1 304 Not Modified"));
}

#[test]
fn blank_lines_are_separators_not_records() {
    let input = b"\r\n\n\r\nHTTP/2 200\nA: 1\n\n\n\nB: 2\n\n";
    let records = read_records(&input[..]).unwrap();
    assert_eq!(records.len(), 2);
    assert_eq!(records[0].status_line.as_deref(), Some("HTTP/2 200"));
    assert_eq!(records[0].headers, vec![("A".to_string(), "1".to_string())]);
    assert_eq!(records[1].status_line, None);
    assert_eq!(records[1].get("b"), Some("2"));
    assert!(read_records(b"\n\n").unwrap().is_empty());
    assert!(read_records(b"").unwrap().is_empty());
}

#[test]
fn header_lines_are_split_at_the_first_colon_and_trimmed() {
    let mut parser = RecordParser::new();
    assert!(parser.feed_line("  Location :  http://x/y  \r\n").is_none());
    assert!(parser.feed_line("no colon here\r\n").is_none());
    assert!(parser.feed_line("HTTP/1.0 404\r\r\n").is_none());
    assert!(parser.feed_line("HTTP/1.1 200 OK").is_none());
    let rec = parser.feed_line("\r\n").unwrap();
    assert_eq!(rec.status_line.as_deref(), Some("HTTP/1.1 200 OK"));
    assert_eq!(
        rec.headers,
        vec![("Location".to_string(), "http://x/y".to_string())]
    );
    assert!(parser.finish().is_none());
}

#[test]
fn lines_that_only_look_like_status_lines_are_headers_or_ignored() {
    let mut parser = RecordParser::new();
    assert!(parser.feed_line("http/1.1 200\n").is_none());
    assert!(parser.feed_line("HTTP: yes\n").is_none());
    let rec = parser.finish().unwrap();
    assert_eq!(rec.status_line, None);
    assert_eq!(rec.get("http"), Some("yes"));
}

#[test]
fn get_ignores_ascii_case_and_takes_the_first_match() {
    let rec = HeaderRecord {
        status_line: None,
        headers: vec![
            ("ETag".to_string(), "a".to_string()),
            ("etag".to_string(), "b".to_string()),
        ],
    };
    assert_eq!(rec.get("ETAG"), Some("a"));
    assert_eq!(rec.get("etag"), Some("a"));
    assert_eq!(rec.get("e-tag"), None);
    assert_eq!(rec.get("eta"), None);
    assert!(!rec.is_empty());
    assert!(HeaderRecord::default().is_empty());
    let copy = rec.clone();
    assert_eq!(copy.headers, rec.headers);
}

#[test]
fn a_written_capture_reads_back_as_its_records() {
    let capture: Vec<(&str, Vec<(&str, &str)>)> = vec![
        ("HTTP/1.1 200 OK", vec![("Cache-Control", "max-age=60"), ("X", "a: b"), ("Empty", "")]),
        ("HTTP/2 304", vec![]),
        ("HTTP/1.0 404 Not Found", vec![("HTTP", "no")]),
    ];
    let mut text = String::new();
    for (status, headers) in &capture {
        text.push_str(status);
        text.push_str("\r\n");
        for (n, v) in headers {
            text.push_str(&format!("{n}: {v}\r\n"));
        }
        text.push_str("\r\n");
    }
    let records = read_records(text.as_bytes()).unwrap();
    assert_eq!(records.len(), capture.len());
    for (rec, (status, headers)) in records.iter().zip(&capture) {
        assert_eq!(rec.status_line.as_deref(), Some(*status));
        let hs: Vec<(&str, &str)> = rec.headers.iter().map(|(n, v)| (n.as_str(), v.as_str())).collect();
        assert_eq!(&hs, headers);
    }
    // A record does not depend on what follows its blank line.
    let mut longer = text.clone();
    longer.push_str("garbage\r\nHTTP/9 x\r\n");
    let more = read_records(longer.as_bytes()).unwrap();
    for (a, b) in records.iter().zip(&more) {
        assert_eq!(a.status_line, b.status_line);
        assert_eq!(a.headers, b.headers);
    }
}

#[test]
fn a_record_depends_only_on_the_lines_before_its_blank_line() {
    let a = b"HTTP/1.1 200 OK\r\nETag: x\r\n";
    let alone = read_records(&a[..]).unwrap();
    let mut longer = a.to_vec();
    longer.extend_from_slice(b"\r\nanything: else\r\n\r\nHTTP/2 500\r\n");
    let first = &read_records(&longer).unwrap()[0];
    assert_eq!(alone.len(), 1);
    assert_eq!(alone[0].status_line, first.status_line);
    assert_eq!(alone[0].headers, first.headers);
}
