use rlq::error::{CliError, Error};
use rlq::group::{group_by, Groups};
use rlq::ltsv::{parse_head, parse_record};
use rlq::order::{order_by, stable_order};
use rlq::query::{
    do_groupby, do_list, do_orderby, exit_code, format_group, group_lines, source_name,
};
use rlq::select::{check_labels, select, select_fields, select_line};

fn lines(texts: &[&str]) -> Vec<String> {
    texts.iter().map(|t| t.to_string()).collect()
}

fn sample() -> Vec<String> {
    lines(&["host:a\tstatus:200\n", "host:b\tstatus:404\n", "host:a\tstatus:200\n"])
}

#[test]
fn sample_list() {
    let mut labels = do_list(&sample()).unwrap();
    labels.sort();
    assert_eq!(labels, lines(&["host", "status"]));
}

#[test]
fn sample_group_by_host() {
    let groups = group_by(&sample(), "host").unwrap();
    assert_eq!(groups.len(), 2);
    assert_eq!(groups.get("a"), 2);
    assert_eq!(groups.get("b"), 1);
    assert_eq!(groups.get("c"), 0);
    assert_eq!(groups.total(), 3);
}

#[test]
fn sample_order_by_status() {
    let input = lines(&["host:a\tstatus:200\tn:1\n", "host:b\tstatus:404\n", "host:a\tstatus:200\tn:2\n"]);
    let out = order_by(&input, "status").unwrap();
    assert_eq!(
        out,
        lines(&["host:a\tstatus:200\tn:1\n", "host:a\tstatus:200\tn:2\n", "host:b\tstatus:404\n"])
    );
}

#[test]
fn sample_select_status_host() {
    let labels = lines(&["status", "host"]);
    let out = select(&sample(), &labels).unwrap();
    assert_eq!(out, lines(&["status:200\thost:a", "status:404\thost:b", "status:200\thost:a"]));
}

#[test]
fn list_keeps_order_of_first_appearance() {
    let labels = do_list(&lines(&["\n", "z:1\ta:2\tz:3\tm:4\n", "other:1\n"])).unwrap();
    assert_eq!(labels, lines(&["z", "a", "m"]));
}

#[test]
fn list_fails_without_a_record() {
    assert!(matches!(do_list(&lines(&[])), Err(CliError::Other)));
    assert!(matches!(do_list(&lines(&["\n", "\n"])), Err(CliError::Other)));
    assert!(matches!(do_list(&lines(&["no colon\n"])), Err(CliError::Other)));
}

#[test]
fn select_follows_requested_order() {
    let rec = parse_record("a:1\tb:2\tc:3\n").unwrap();
    assert_eq!(select_fields(&rec, &lines(&["c", "a"])), "c:3\ta:1");
    assert_eq!(select_fields(&rec, &lines(&["a", "c"])), "a:1\tc:3");
    assert_eq!(select_fields(&rec, &lines(&["b"])), "b:2");
    assert_eq!(select_fields(&rec, &lines(&["b", "b"])), "b:2\tb:2");
    assert_eq!(select_fields(&rec, &lines(&[])), "");
}

#[test]
fn select_shows_nothing_for_a_missing_label() {
    let rec = parse_record("a:1\tc:3\n").unwrap();
    assert_eq!(select_fields(&rec, &lines(&["a", "b", "c"])), "a:1\t\tc:3");
    assert_eq!(select_fields(&rec, &lines(&["b"])), "");
    assert_eq!(select_fields(&rec, &lines(&["b", "a"])), "\ta:1");
}

#[test]
fn select_tolerates_records_that_lack_a_label() {
    let input = lines(&["a:1\tb:2\n", "a:3\n", "b:4\tzz:9\n"]);
    let out = select(&input, &lines(&["b", "a"])).unwrap();
    assert_eq!(out, lines(&["b:2\ta:1", "\ta:3", "b:4\t"]));
}

#[test]
fn select_skips_blank_lines_and_includes_the_header() {
    let input = lines(&["\n", "a:1\n", "\n", "a:2\n"]);
    assert_eq!(select(&input, &lines(&["a"])).unwrap(), lines(&["a:1", "a:2"]));
}

#[test]
fn select_rejects_an_unknown_label() {
    let input = lines(&["a:1\tb:2\n", "c:3\n"]);
    match select(&input, &lines(&["a", "c", "d"])) {
        Err(CliError::UnknownLabel(l)) => assert_eq!(l, "c"),
        _ => panic!("the header has no label c"),
    }
}

#[test]
fn select_checks_labels_before_it_reads_on() {
    let input = lines(&["a:1\n", "broken\n"]);
    match select(&input, &lines(&["x"])) {
        Err(CliError::UnknownLabel(l)) => assert_eq!(l, "x"),
        _ => panic!("the unknown label comes first"),
    }
    assert!(matches!(select(&input, &lines(&["a"])), Err(CliError::Other)));
}

#[test]
fn select_fails_on_a_source_without_header() {
    assert!(matches!(select(&lines(&[]), &lines(&["a"])), Err(CliError::Other)));
    assert!(matches!(select(&lines(&["bad\n"]), &lines(&["a"])), Err(CliError::Other)));
}

#[test]
fn check_labels_names_the_first_missing() {
    let header = parse_head(&lines(&["a:1\tb:2\n"])).unwrap();
    assert!(check_labels(&header, &lines(&["b", "a"])).is_ok());
    assert!(check_labels(&header, &lines(&[])).is_ok());
    match check_labels(&header, &lines(&["b", "y", "x"])) {
        Err(CliError::UnknownLabel(l)) => assert_eq!(l, "y"),
        _ => panic!("y is missing"),
    }
}

#[test]
fn select_line_steps() {
    let labels = lines(&["b", "a"]);
    assert_eq!(select_line("a:1\tb:2\n", &labels).unwrap(), Some("b:2\ta:1".to_string()));
    assert_eq!(select_line("\n", &labels).unwrap(), None);
    match select_line("oops\n", &labels) {
        Err(Error::Parse(e)) => assert_eq!(e.msg, "invalid ltsv item: oops"),
        _ => panic!("the line does not parse"),
    }
}

#[test]
fn select_round_trip() {
    let line = "host:a\tstatus:200\ttime:12:30\n";
    let rec = parse_record(line).unwrap();
    let out = select_fields(&rec, &rec.labels());
    assert_eq!(out, "host:a\tstatus:200\ttime:12:30");
    let again = parse_record(&out).unwrap();
    assert_eq!(again.labels(), rec.labels());
    for l in rec.labels() {
        assert_eq!(again.get(&l), rec.get(&l));
    }
    let other = select_fields(&rec, &lines(&["time", "host", "status"]));
    let third = parse_record(&other).unwrap();
    assert_eq!(third.len(), 3);
    for l in rec.labels() {
        assert_eq!(third.get(&l), rec.get(&l));
    }
}

#[test]
fn group_by_passes_over_records_without_the_label() {
    let input = lines(&["host:a\n", "other:1\n", "\n", "host:b\n", "host:a\tother:2\n"]);
    let groups = group_by(&input, "host").unwrap();
    assert_eq!(groups.total(), 3);
    assert_eq!(groups.len(), 2);
    let entries = groups.entries();
    assert_eq!(entries, vec![("a".to_string(), 2), ("b".to_string(), 1)]);
    let sum: usize = entries.iter().map(|e| e.1).sum();
    assert_eq!(sum, 3);
}

#[test]
fn group_by_unknown_label_counts_nothing() {
    let groups = group_by(&sample(), "nope").unwrap();
    assert_eq!(groups.len(), 0);
    assert_eq!(groups.total(), 0);
    assert!(groups.entries().is_empty());
}

#[test]
fn group_by_counts_the_empty_value() {
    let groups = group_by(&lines(&["k:\n", "k:\n", "k:x\n"]), "k").unwrap();
    assert_eq!(groups.get(""), 2);
    assert_eq!(groups.get("x"), 1);
}

#[test]
fn group_by_stops_at_a_bad_line() {
    match group_by(&lines(&["a:1\n", "bad\n"]), "a") {
        Err(Error::Parse(e)) => assert_eq!(e.msg, "invalid ltsv item: bad"),
        _ => panic!("the second line does not parse"),
    }
}

#[test]
fn groups_count_by_hand() {
    let g = Groups::new();
    assert_eq!(g.total(), 0);
    let g = g.count("x").count("y").count("x");
    assert_eq!(g.get("x"), 2);
    assert_eq!(g.get("y"), 1);
    assert_eq!(g.total(), 3);
    assert_eq!(g.len(), 2);
    let rec = parse_record("k:y\n").unwrap();
    let g = g.observe(&rec, "k").observe(&rec, "absent");
    assert_eq!(g.get("y"), 2);
    assert_eq!(g.total(), 4);
    let g = g.feed("k:z\n", "k").unwrap().feed("\n", "k").unwrap();
    assert_eq!(g.get("z"), 1);
    assert_eq!(g.total(), 5);
    assert!(g.feed("bad\n", "k").is_err());
}

#[test]
fn group_lines_are_formatted() {
    assert_eq!(format_group("host", "a", 2), "host:a\tcount:2");
    assert_eq!(format_group("host", "", 0), "host:\tcount:0");
    assert_eq!(format_group("h", "v", 10), "h:v\tcount:10");
    assert_eq!(format_group("h", "v", 1234567890), "h:v\tcount:1234567890");
    assert_eq!(
        format_group("h", "v", usize::MAX),
        format!("h:v\tcount:{}", usize::MAX)
    );
    let out = do_groupby(&sample(), "host").unwrap();
    assert_eq!(out, lines(&["host:a\tcount:2", "host:b\tcount:1"]));
    let groups = group_by(&sample(), "status").unwrap();
    assert_eq!(group_lines(&groups, "status"), lines(&["status:200\tcount:2", "status:404\tcount:1"]));
}

#[test]
fn do_groupby_fails_on_a_bad_line() {
    assert!(matches!(do_groupby(&lines(&["x\n"]), "a"), Err(CliError::Other)));
}

#[test]
fn order_by_is_stable() {
    let input = lines(&["k:b\tn:1\n", "k:a\tn:2\n", "k:b\tn:3\n", "k:a\tn:4\n", "k:b\tn:5\n"]);
    let out = order_by(&input, "k").unwrap();
    assert_eq!(
        out,
        lines(&["k:a\tn:2\n", "k:a\tn:4\n", "k:b\tn:1\n", "k:b\tn:3\n", "k:b\tn:5\n"])
    );
}

#[test]
fn order_by_puts_missing_label_first() {
    let input = lines(&["k:b\n", "other:1\n", "k:a\n", "other:2\n", "k:\n"]);
    let out = order_by(&input, "k").unwrap();
    assert_eq!(out, lines(&["other:1\n", "other:2\n", "k:\n", "k:a\n", "k:b\n"]));
}

#[test]
fn order_by_compares_bytes() {
    let input = lines(&["k:9\n", "k:10\n", "k:b\n", "k:B\n", "k:é\n", "k:z\n", "k:ab\n", "k:a\n"]);
    let out = order_by(&input, "k").unwrap();
    assert_eq!(
        out,
        lines(&["k:10\n", "k:9\n", "k:B\n", "k:a\n", "k:ab\n", "k:b\n", "k:z\n", "k:é\n"])
    );
}

#[test]
fn order_by_drops_blank_lines_and_keeps_the_rest() {
    let input = lines(&["\n", "k:2\n", "", "k:1", "\n"]);
    let out = order_by(&input, "k").unwrap();
    assert_eq!(out, lines(&["k:1", "k:2\n"]));
}

#[test]
fn order_by_agrees_with_a_stable_sort() {
    let mut input = Vec::new();
    let mut seed: u32 = 7;
    for i in 0..200 {
        seed = seed.wrapping_mul(1103515245).wrapping_add(12345);
        let key = (seed >> 16) % 13;
        input.push(format!("k:{}\tn:{}\n", key, i));
    }
    let out = order_by(&input, "k").unwrap();
    let mut want = input.clone();
    want.sort_by(|a, b| {
        let ka = a.split('\t').next().unwrap()[2..].to_string();
        let kb = b.split('\t').next().unwrap()[2..].to_string();
        ka.cmp(&kb)
    });
    assert_eq!(out.len(), input.len());
    assert_eq!(out, want);
}

#[test]
fn order_by_of_nothing() {
    assert!(order_by(&lines(&[]), "k").unwrap().is_empty());
    assert_eq!(order_by(&lines(&["a:1\n"]), "k").unwrap(), lines(&["a:1\n"]));
}

#[test]
fn order_by_stops_at_a_bad_line() {
    match order_by(&lines(&["k:1\n", "bad\n"]), "k") {
        Err(Error::Parse(e)) => assert_eq!(e.msg, "invalid ltsv item: bad"),
        _ => panic!("the second line does not parse"),
    }
    assert!(matches!(do_orderby(&lines(&["bad\n"]), "k"), Err(CliError::Other)));
    assert_eq!(do_orderby(&lines(&["k:2\n", "k:1\n"]), "k").unwrap(), lines(&["k:1\n", "k:2\n"]));
}

#[test]
fn stable_order_of_keys() {
    let keys = lines(&["b", "a", "b", "", "a"]);
    assert_eq!(stable_order(&keys), vec![3, 1, 4, 0, 2]);
    assert_eq!(stable_order(&lines(&[])), Vec::<usize>::new());
    assert_eq!(stable_order(&lines(&["x"])), vec![0]);
}

#[test]
fn source_name_wants_exactly_one() {
    assert!(matches!(source_name(&lines(&[])), Err(CliError::NotEnoughArgs)));
    assert!(matches!(source_name(&lines(&["a", "b"])), Err(CliError::TooManyArgs)));
    assert!(matches!(source_name(&lines(&["a", "b", "c"])), Err(CliError::TooManyArgs)));
    assert_eq!(source_name(&lines(&["-"])).unwrap(), "-");
}

#[test]
fn exit_codes() {
    assert_eq!(exit_code(&None), 0);
    assert_eq!(exit_code(&Some(CliError::Other)), 3);
    assert_eq!(exit_code(&Some(CliError::NotEnoughArgs)), 2);
    assert_eq!(exit_code(&Some(CliError::TooManyArgs)), 2);
    assert_eq!(exit_code(&Some(CliError::UnknownLabel("x".to_string()))), 2);
}
