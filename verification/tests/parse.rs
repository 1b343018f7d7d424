use rlq::error::Error;
use rlq::ltsv::{each_record, is_blank, parse_head, parse_record, read_record, split_field};

fn lines(texts: &[&str]) -> Vec<String> {
    texts.iter().map(|t| t.to_string()).collect()
}

#[test]
fn test_parse_head() {}

#[test]
fn parse_record_reads_fields() {
    let rec = parse_record("host:a\tstatus:200\n").unwrap();
    assert_eq!(rec.len(), 2);
    assert_eq!(rec.get("host").unwrap(), "a");
    assert_eq!(rec.get("status").unwrap(), "200");
    assert_eq!(rec.labels(), vec!["host".to_string(), "status".to_string()]);
}

#[test]
fn parse_record_without_newline_is_the_same() {
    let rec = parse_record("host:a\tstatus:200").unwrap();
    assert_eq!(rec.get("status").unwrap(), "200");
    assert_eq!(rec.len(), 2);
}

#[test]
fn parse_record_drops_one_newline_only() {
    let rec = parse_record("a:b\n\n").unwrap();
    assert_eq!(rec.get("a").unwrap(), "b\n");
}

#[test]
fn parse_record_keeps_carriage_return() {
    let rec = parse_record("a:b\r\n").unwrap();
    assert_eq!(rec.get("a").unwrap(), "b\r");
}

#[test]
fn parse_record_splits_at_first_colon() {
    let rec = parse_record("time:12:30:05\turl:http://x/y\n").unwrap();
    assert_eq!(rec.get("time").unwrap(), "12:30:05");
    assert_eq!(rec.get("url").unwrap(), "http://x/y");
}

#[test]
fn parse_record_allows_empty_label_and_value() {
    let rec = parse_record(":v\tk:\n").unwrap();
    assert_eq!(rec.get("").unwrap(), "v");
    assert_eq!(rec.get("k").unwrap(), "");
    assert_eq!(rec.len(), 2);
}

#[test]
fn parse_record_last_duplicate_wins_and_keeps_place() {
    let rec = parse_record("a:1\tb:2\ta:3\n").unwrap();
    assert_eq!(rec.len(), 2);
    assert_eq!(rec.get("a").unwrap(), "3");
    assert_eq!(rec.get("b").unwrap(), "2");
    assert_eq!(rec.labels(), vec!["a".to_string(), "b".to_string()]);
}

#[test]
fn parse_record_reads_text_beyond_ascii() {
    let rec = parse_record("名前:値\tcafé:crème\n").unwrap();
    assert_eq!(rec.get("名前").unwrap(), "値");
    assert_eq!(rec.get("café").unwrap(), "crème");
}

#[test]
fn parse_record_missing_label_is_none() {
    let rec = parse_record("a:1\n").unwrap();
    assert!(rec.get("b").is_none());
    assert!(rec.contains("a"));
    assert!(!rec.contains("b"));
    assert!(!rec.contains("A"));
}

#[test]
fn parse_record_rejects_item_without_colon() {
    let err = parse_record("host:a\tbroken\tstatus:200\n").unwrap_err();
    assert_eq!(err.msg, "invalid ltsv item: broken");
}

#[test]
fn parse_record_names_the_first_bad_item() {
    let err = parse_record("one\ttwo\n").unwrap_err();
    assert_eq!(err.msg, "invalid ltsv item: one");
}

#[test]
fn parse_record_rejects_empty_item() {
    let err = parse_record("a:1\t\tb:2\n").unwrap_err();
    assert_eq!(err.msg, "invalid ltsv item: ");
    let err = parse_record("a:1\t\n").unwrap_err();
    assert_eq!(err.msg, "invalid ltsv item: ");
}

#[test]
fn parse_record_rejects_blank_content() {
    assert_eq!(parse_record("").unwrap_err().msg, "invalid ltsv item: ");
    assert_eq!(parse_record("\n").unwrap_err().msg, "invalid ltsv item: ");
}

#[test]
fn split_field_cases() {
    assert_eq!(split_field("a:b"), Some(("a".to_string(), "b".to_string())));
    assert_eq!(split_field("a:b:c"), Some(("a".to_string(), "b:c".to_string())));
    assert_eq!(split_field(":"), Some(("".to_string(), "".to_string())));
    assert_eq!(split_field("ab"), None);
    assert_eq!(split_field(""), None);
}

#[test]
fn blank_lines() {
    assert!(is_blank(""));
    assert!(is_blank("\n"));
    assert!(!is_blank(" "));
    assert!(!is_blank("a"));
    assert!(!is_blank("\r\n"));
    assert!(!is_blank("\n\n"));
    assert!(!is_blank("a:b\n"));
}

#[test]
fn read_record_skips_blank() {
    assert!(read_record("\n").unwrap().is_none());
    assert!(read_record("").unwrap().is_none());
    let rec = read_record("a:1\n").unwrap().unwrap();
    assert_eq!(rec.get("a").unwrap(), "1");
    assert_eq!(read_record("x\n").unwrap_err().msg, "invalid ltsv item: x");
}

#[test]
fn parse_head_skips_blank_lines() {
    let rec = parse_head(&lines(&["\n", "", "\n", "host:a\tstatus:200\n", "junk\n"])).unwrap();
    assert_eq!(rec.labels(), vec!["host".to_string(), "status".to_string()]);
    assert_eq!(rec.get("host").unwrap(), "a");
}

#[test]
fn parse_head_of_empty_source_is_an_error() {
    match parse_head(&lines(&[])) {
        Err(Error::Parse(e)) => assert_eq!(e.msg, "no record found"),
        _ => panic!("an empty source has no record"),
    }
}

#[test]
fn parse_head_of_blank_source_is_an_error() {
    match parse_head(&lines(&["\n", "\n", ""])) {
        Err(Error::Parse(e)) => assert_eq!(e.msg, "no record found"),
        _ => panic!("a blank source has no record"),
    }
}

#[test]
fn parse_head_reports_a_bad_first_line() {
    match parse_head(&lines(&["\n", "nothing here\n", "a:1\n"])) {
        Err(Error::Parse(e)) => assert_eq!(e.msg, "invalid ltsv item: nothing here"),
        _ => panic!("the first line does not parse"),
    }
}

#[test]
fn parse_head_does_not_read_past_the_head() {
    let rec = parse_head(&lines(&["a:1\n", "broken\n"])).unwrap();
    assert_eq!(rec.len(), 1);
}

#[test]
fn each_record_reads_all() {
    let recs = each_record(&lines(&["a:1\n", "\n", "a:2\tb:3\n", "", "c:4"])).unwrap();
    assert_eq!(recs.len(), 3);
    assert_eq!(recs[0].get("a").unwrap(), "1");
    assert_eq!(recs[1].get("b").unwrap(), "3");
    assert_eq!(recs[2].get("c").unwrap(), "4");
}

#[test]
fn each_record_of_nothing_is_empty() {
    assert_eq!(each_record(&lines(&[])).unwrap().len(), 0);
    assert_eq!(each_record(&lines(&["\n", "\n"])).unwrap().len(), 0);
}

#[test]
fn each_record_stops_at_first_error() {
    match each_record(&lines(&["a:1\n", "bad one\n", "worse\n"])) {
        Err(Error::Parse(e)) => assert_eq!(e.msg, "invalid ltsv item: bad one"),
        _ => panic!("the second line does not parse"),
    }
}
