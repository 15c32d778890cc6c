use lib::cli::{
    apply_strict, file_field, json_string, parse_args, parse_format, report_read_error,
    report_record, exit_status, Format, RunState, MISSING_FORMAT,
};
use lib::lint::{Finding, Severity};
use lib::record::HeaderRecord;
use lib::text::{parse_u64, push_decimal};

#[test]
fn json_string_escapes_quotes_and_backslashes() {
    assert_eq!(json_string("a\"b\\c"), "\"a\\\"b\\\\c\"");
}

#[test]
fn json_string_escapes_control_characters() {
    assert_eq!(json_string("a\nb\tc"), "\"a\\nb\\tc\"");
    assert_eq!(json_string("\u{1}"), "\"\\u0001\"");
}

#[test]
fn json_string_other_characters() {
    assert_eq!(json_string(""), "\"\"");
    assert_eq!(json_string("\r\u{1f}\u{7f}é"), "\"\\r\\u001f\u{7f}é\"");
    assert_eq!(json_string("\u{0}\u{b}"), "\"\\u0000\\u000b\"");
}

#[test]
fn parse_args_accepts_format_and_path() {
    let args = parse_args(vec![
        "--format".to_string(),
        "json".to_string(),
        "headers.txt".to_string(),
    ])
    .unwrap();
    assert!(args.format == Format::Json);
    assert_eq!(args.paths, vec!["headers.txt".to_string()]);
}

#[test]
fn parse_args_accepts_format_equals_form() {
    let args = parse_args(vec!["--format=json".to_string()]).unwrap();
    assert!(args.format == Format::Json);
    assert!(args.paths.is_empty());
}

#[test]
fn parse_args_rejects_unknown_format() {
    assert!(parse_args(vec!["--format".to_string(), "yaml".to_string()]).is_err());
}

#[test]
fn parse_args_accepts_multiple_paths() {
    let args = parse_args(vec![
        "a.txt".to_string(),
        "b.txt".to_string(),
        "c.txt".to_string(),
    ])
    .unwrap();
    assert_eq!(args.paths, vec!["a.txt", "b.txt", "c.txt"]);
}

#[test]
fn parse_args_keeps_paths_in_order_regardless_of_flag_position() {
    let args = parse_args(vec![
        "a.txt".to_string(),
        "--format".to_string(),
        "json".to_string(),
        "b.txt".to_string(),
    ])
    .unwrap();
    assert_eq!(args.paths, vec!["a.txt", "b.txt"]);
    assert!(args.format == Format::Json);
}

#[test]
fn parse_args_accepts_strict_flag() {
    let args = parse_args(vec!["--strict".to_string(), "headers.txt".to_string()]).unwrap();
    assert!(args.strict);
    assert_eq!(args.paths, vec!["headers.txt".to_string()]);
}

#[test]
fn parse_args_defaults_strict_to_false() {
    let args = parse_args(Vec::<String>::new()).unwrap();
    assert!(!args.strict);
    assert!(args.format == Format::Text);
}

#[test]
fn parse_args_error_messages() {
    assert_eq!(
        parse_args(vec!["--format".to_string(), "yaml".to_string()]).err(),
        Some("unknown format: yaml (expected text or json)".to_string())
    );
    assert_eq!(
        parse_args(vec!["--format=".to_string()]).err(),
        Some("unknown format:  (expected text or json)".to_string())
    );
    assert_eq!(
        parse_args(vec!["a".to_string(), "--format".to_string()]).err(),
        Some(MISSING_FORMAT.to_string())
    );
    assert_eq!(MISSING_FORMAT, "--format requires a value (text or json)");
}

#[test]
fn parse_args_later_format_wins_and_strict_is_not_a_path() {
    let args = parse_args(vec![
        "--format=json".to_string(),
        "--strict".to_string(),
        "--format".to_string(),
        "text".to_string(),
        "--Strict".to_string(),
    ])
    .unwrap();
    assert!(args.format == Format::Text);
    assert!(args.strict);
    assert_eq!(args.paths, vec!["--Strict"]);
}

#[test]
fn parse_format_words() {
    assert_eq!(parse_format("text"), Ok(Format::Text));
    assert_eq!(parse_format("json"), Ok(Format::Json));
    assert_eq!(
        parse_format("JSON"),
        Err("unknown format: JSON (expected text or json)".to_string())
    );
}

#[test]
fn apply_strict_upgrades_info_to_warning() {
    let mut findings = vec![
        Finding {
            severity: Severity::Info,
            message: "info message".to_string(),
        },
        Finding {
            severity: Severity::Warning,
            message: "warning message".to_string(),
        },
    ];
    apply_strict(&mut findings);
    assert!(findings.iter().all(|f| f.severity != Severity::Info));
    assert_eq!(findings[0].severity, Severity::Warning);
    assert_eq!(findings[1].severity, Severity::Warning);
}

#[test]
fn apply_strict_twice_is_once_and_keeps_errors_and_messages() {
    let mut findings = vec![
        Finding {
            severity: Severity::Error,
            message: "e".to_string(),
        },
        Finding {
            severity: Severity::Info,
            message: "i".to_string(),
        },
    ];
    apply_strict(&mut findings);
    apply_strict(&mut findings);
    assert_eq!(findings[0].severity, Severity::Error);
    assert_eq!(findings[1].severity, Severity::Warning);
    assert_eq!(findings[0].message, "e");
    assert_eq!(findings[1].message, "i");
}

#[test]
fn file_field_renders_a_json_field() {
    assert_eq!(file_field(None), "");
    assert_eq!(file_field(Some("a\"b.txt")), "\"file\":\"a\\\"b.txt\",");
}

fn record(status: Option<&str>, headers: &[(&str, &str)]) -> HeaderRecord {
    HeaderRecord {
        status_line: status.map(|s| s.to_string()),
        headers: headers
            .iter()
            .map(|(k, v)| (k.to_string(), v.to_string()))
            .collect(),
    }
}

#[test]
fn report_record_text_and_json() {
    let rec = record(Some("HTTP/1.1 200 OK"), &[]);
    assert_eq!(
        report_record(&rec, 1, Format::Text, None, false).unwrap(),
        "record 1 [HTTP/1.1 200 OK]\n  info: no Cache-Control header; caching is left to the client's heuristics\n  info: no ETag or Last-Modified; a conditional request has nothing to send once the response goes stale\n"
    );
    let rec = record(None, &[("Cache-Control", "no-store, max-age=1")]);
    assert_eq!(
        report_record(&rec, 12, Format::Text, Some("a.txt"), true).unwrap(),
        "a.txt: record 12 [(no status line)]\n  warning: no-store combined with a freshness directive; no-store wins, so the other directive is likely a mistake\n"
    );
    let rec = record(Some("HTTP/2 200"), &[("ETag", "x")]);
    assert_eq!(
        report_record(&rec, 3, Format::Json, Some("f"), true).unwrap(),
        "{\"file\":\"f\",\"record\":3,\"status_line\":\"HTTP/2 200\",\"findings\":[{\"severity\":\"warning\",\"message\":\"no Cache-Control header; caching is left to the client's heuristics\"}]}\n"
    );
    let rec = record(Some("HTTP/2 200"), &[]);
    assert_eq!(
        report_record(&rec, 0, Format::Json, None, false).unwrap(),
        "{\"record\":0,\"status_line\":\"HTTP/2 200\",\"findings\":[{\"severity\":\"info\",\"message\":\"no Cache-Control header; caching is left to the client's heuristics\"},{\"severity\":\"info\",\"message\":\"no ETag or Last-Modified; a conditional request has nothing to send once the response goes stale\"}]}\n"
    );
    let rec = record(Some("HTTP/2 200"), &[("Cache-Control", "max-age=1"), ("ETag", "x")]);
    assert!(report_record(&rec, 5, Format::Json, None, true).is_none());
}

#[test]
fn report_read_error_lines() {
    assert_eq!(
        report_read_error(4, Format::Text, None, "boom"),
        "record 4: read error: boom\n"
    );
    assert_eq!(
        report_read_error(40, Format::Text, Some("x.txt"), "boom"),
        "x.txt: record 40: read error: boom\n"
    );
    assert_eq!(
        report_read_error(0, Format::Json, Some("x"), "bad \"utf8\""),
        "{\"file\":\"x\",\"record\":0,\"error\":\"bad \\\"utf8\\\"\"}\n"
    );
    assert_eq!(
        report_read_error(1234567890, Format::Json, None, ""),
        "{\"record\":1234567890,\"error\":\"\"}\n"
    );
}

#[test]
fn decimal_written_by_the_library_reads_back() {
    for n in [0usize, 7, 10, 99, 100, 65535, 1234567890, usize::MAX] {
        let mut s = String::from("x");
        push_decimal(&mut s, n);
        assert_eq!(&s[1..], n.to_string());
        assert_eq!(parse_u64(&s[1..]), Some(n as u64));
    }
}

#[test]
fn json_string_leaves_no_raw_control_characters() {
    let all: String = (0u32..0x80).filter_map(char::from_u32).collect();
    let out = json_string(&all);
    assert!(out.starts_with('"') && out.ends_with('"'));
    assert!(out.chars().all(|c| (c as u32) >= 0x20));
}

#[test]
fn run_state_counts_records_and_stops_after_an_error() {
    let mut state = RunState::new();
    assert_eq!(state.index(), 0);
    assert!(!state.saw_finding());
    let quiet = record(Some("HTTP/2 200"), &[("Cache-Control", "max-age=1"), ("ETag", "x")]);
    assert!(state.record(&quiet, Format::Text, None, false).is_none());
    assert_eq!(state.index(), 1);
    assert!(!state.saw_finding());
    let noisy = record(None, &[]);
    let out = state.record(&noisy, Format::Text, Some("f"), true).unwrap();
    assert!(out.starts_with("f: record 2 [(no status line)]\n  warning: "));
    assert!(state.saw_finding());
    assert!(!state.is_stopped());
    assert!(!state.read_failed());
    let line = state.read_error(Format::Text, None, "boom");
    assert_eq!(line, "record 2: read error: boom\n");
    assert!(state.is_stopped());
    assert!(state.read_failed());
    assert_eq!(state.index(), 2);
}

#[test]
fn a_read_error_is_not_a_finding_and_exits_two() {
    let mut state = RunState::new();
    let line = state.read_error(Format::Text, None, "boom");
    assert_eq!(line, "record 0: read error: boom\n");
    assert!(!state.saw_finding());
    assert!(state.read_failed());
    assert_eq!(exit_status(state.read_failed(), state.saw_finding()), 2);
    assert_eq!(exit_status(true, true), 2);
    assert_eq!(exit_status(false, true), 1);
    assert_eq!(exit_status(false, false), 0);
}

#[test]
fn strict_reports_exactly_when_plain_reports_with_info_shown_as_warning() {
    let recs = [
        record(Some("HTTP/2 200"), &[]),
        record(Some("HTTP/2 200"), &[("Cache-Control", "max-age=1"), ("ETag", "x")]),
        record(None, &[("Cache-Control", "no-store, max-age=1"), ("Expires", "0")]),
        record(None, &[("Cache-Control", "max-age=1"), ("Expires", "0")]),
    ];
    for rec in &recs {
        for format in [Format::Text, Format::Json] {
            let plain = report_record(rec, 1, format, None, false);
            let strict = report_record(rec, 1, format, None, true);
            assert_eq!(plain.is_some(), strict.is_some());
            if let (Some(p), Some(s)) = (plain, strict) {
                let expected = match format {
                    Format::Text => p.replace("  info: ", "  warning: "),
                    Format::Json => p.replace("\"severity\":\"info\"", "\"severity\":\"warning\""),
                };
                assert_eq!(s, expected);
            }
        }
    }
}

#[test]
fn json_string_round_trips_through_a_decoder() {
    for s in ["", "plain", "a\"b\\c/d", "\u{0}\u{1f}\n\r\t", "é ü 😀 \u{7f}"] {
        let out = json_string(s);
        assert_eq!(decode_json_string(&out), Some(s.to_string()));
    }
}

/// A small JSON string decoder, written from RFC 8259, for the test above.
fn decode_json_string(t: &str) -> Option<String> {
    let mut chars = t.chars();
    if chars.next()? != '"' {
        return None;
    }
    let mut out = String::new();
    loop {
        let c = chars.next()?;
        match c {
            '"' => return if chars.next().is_none() { Some(out) } else { None },
            '\\' => match chars.next()? {
                '"' => out.push('"'),
                '\\' => out.push('\\'),
                '/' => out.push('/'),
                'b' => out.push('\u{8}'),
                'f' => out.push('\u{c}'),
                'n' => out.push('\n'),
                'r' => out.push('\r'),
                't' => out.push('\t'),
                'u' => {
                    let hex: String = (0..4).map(|_| chars.next()).collect::<Option<String>>()?;
                    let v = u32::from_str_radix(&hex, 16).ok()?;
                    out.push(char::from_u32(v)?);
                }
                _ => return None,
            },
            c if (c as u32) < 0x20 => return None,
            c => out.push(c),
        }
    }
}
