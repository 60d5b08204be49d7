use base64::Engine;
use keyring_env::handle_line;
use keyring_env::process_bundle;
use keyring_env::split_into_lines;
use keyring_env::LineResult;

#[test]
fn decodes_value_with_embedded_equals() {
    match handle_line("KEY=QUk9PQ==") {
        LineResult::Accepted(e) => assert_eq!(e, "export KEY='AI=='"),
        _ => panic!("record should be accepted"),
    }
}

#[test]
fn reports_invalid_name() {
    match handle_line("BAD-NAME=b2s=") {
        LineResult::Rejected(d) => assert_eq!(d, "skipping invalid var name: BAD-NAME"),
        _ => panic!("record should be rejected"),
    }
}

#[test]
fn reports_bad_base64_with_cause() {
    match handle_line("GOOD2=not_base64!!") {
        LineResult::Rejected(d) => {
            assert!(d.starts_with("failed to decode GOOD2: "));
            assert!(d.len() > "failed to decode GOOD2: ".len());
        },
        _ => panic!("record should be rejected"),
    }
}

#[test]
fn skips_non_utf8_value_silently() {
    match handle_line("KEY=/w==") {
        LineResult::Skipped => {},
        _ => panic!("a value that is not UTF-8 text is dropped silently"),
    }
}

#[test]
fn skips_blank_and_foreign_lines() {
    assert!(matches!(handle_line(""), LineResult::Skipped));
    assert!(matches!(handle_line("   \t"), LineResult::Skipped));
    assert!(matches!(handle_line("no equals"), LineResult::Skipped));
}

#[test]
fn accepts_record_with_surrounding_whitespace() {
    match handle_line("  GOOD=b2s= ") {
        LineResult::Accepted(e) => assert_eq!(e, "export GOOD='ok'"),
        _ => panic!("record should be accepted"),
    }
}

#[test]
fn record_failures_are_independent() {
    let bundle = "GOOD=b2s=\nBAD-NAME=b2s=\nGOOD2=not_base64!!";
    let (exports, diags) = process_bundle(bundle);
    assert_eq!(exports, vec!["export GOOD='ok'".to_string()]);
    assert_eq!(diags.len(), 2);
    assert_eq!(diags[0], "skipping invalid var name: BAD-NAME");
    assert!(diags[1].starts_with("failed to decode GOOD2: "));
}

#[test]
fn empty_bundle_yields_nothing() {
    let (exports, diags) = process_bundle("");
    assert!(exports.is_empty());
    assert!(diags.is_empty());
    let (exports2, diags2) = process_bundle("\n   \n\t\n");
    assert!(exports2.is_empty());
    assert!(diags2.is_empty());
}

#[test]
fn output_order_matches_input_order() {
    let bundle = "B=Yg==\nA=YQ==\nB=Yg==";
    let (exports, diags) = process_bundle(bundle);
    let want = vec![
        "export B='b'".to_string(),
        "export A='a'".to_string(),
        "export B='b'".to_string(),
    ];
    assert_eq!(exports, want);
    assert!(diags.is_empty());
}

#[test]
fn runs_are_idempotent() {
    let bundle = "GOOD=b2s=\nBAD-NAME=b2s=\nQ=aXQncyAkSE9NRQ==\nGOOD2=not_base64!!\nBIN=/w==";
    let first = process_bundle(bundle);
    let second = process_bundle(bundle);
    assert_eq!(first, second);
}

#[test]
fn splits_lines_keeping_segments() {
    let lines = split_into_lines("a\nb\n");
    let want = vec!["a".to_string(), "b".to_string(), "".to_string()];
    assert_eq!(lines, want);
    assert_eq!(split_into_lines(""), vec!["".to_string()]);
}

#[test]
fn quoted_value_round_trips_with_quotes_and_newlines() {
    let value = "line one\nit's `x` \"q\" $V\\";
    let encoded = base64::engine::general_purpose::STANDARD.encode(value.as_bytes());
    let line = format!("V={}", encoded);
    match handle_line(&line) {
        LineResult::Accepted(e) => {
            let want = format!("export V={}", keyring_env::shell_quote(value));
            assert_eq!(e, want);
        },
        _ => panic!("record should be accepted"),
    }
}
