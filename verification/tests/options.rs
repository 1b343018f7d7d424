use rlq::options::{
    asks_for_help, choose_query, cli_options, early_exit, invocation_of, parse_config,
    read_command, usage, Config, Flags, Invocation, Query,
};

fn args(texts: &[&str]) -> Vec<String> {
    texts.iter().map(|t| t.to_string()).collect()
}

fn run_of(texts: &[&str]) -> (Vec<String>, Config) {
    match parse_config(args(texts)) {
        Invocation::Run(free, config) => (free, config),
        other => panic!("not a run: {:?}", other),
    }
}

#[test]
fn no_arguments_asks_for_usage() {
    assert!(matches!(parse_config(args(&["rlq"])), Invocation::Usage));
}

#[test]
fn help_first_asks_for_usage() {
    assert!(matches!(parse_config(args(&["rlq", "-h"])), Invocation::Usage));
    assert!(matches!(parse_config(args(&["rlq", "--help", "--bogus"])), Invocation::Usage));
}

#[test]
fn help_later_asks_for_usage() {
    assert!(matches!(parse_config(args(&["rlq", "-l", "-h", "f"])), Invocation::Usage));
    assert!(matches!(parse_config(args(&["rlq", "f", "--help"])), Invocation::Usage));
}

#[test]
fn usage_names_the_options() {
    let text = usage(&cli_options());
    assert!(text.starts_with("Usage: rlq [ options ... ] [URL]\n\twhere options include"));
    for name in ["--list", "--select", "--groupby", "--orderby", "--help", "-l", "-s", "-g", "-o", "-h"] {
        assert!(text.contains(name), "{} is missing", name);
    }
    assert_eq!(usage(&cli_options()), text);
}

#[test]
fn list_flag() {
    let (free, config) = run_of(&["rlq", "-l", "access.log"]);
    assert_eq!(free, args(&["access.log"]));
    assert!(config.query_list);
    assert!(config.query_select.is_empty());
    assert_eq!(config.query_groupby, "");
    assert_eq!(config.query_orderby, "");
    let (_, config) = run_of(&["rlq", "--list", "-"]);
    assert!(config.query_list);
}

#[test]
fn select_flag_repeats() {
    let (free, config) = run_of(&["rlq", "-s", "host", "--select", "status", "f"]);
    assert_eq!(free, args(&["f"]));
    assert!(!config.query_list);
    assert_eq!(config.query_select, args(&["host", "status"]));
}

#[test]
fn groupby_and_orderby_flags() {
    let (free, config) = run_of(&["rlq", "f", "-g", "host"]);
    assert_eq!(free, args(&["f"]));
    assert_eq!(config.query_groupby, "host");
    let (_, config) = run_of(&["rlq", "--orderby", "time", "f"]);
    assert_eq!(config.query_orderby, "time");
    assert_eq!(config.query_groupby, "");
}

#[test]
fn free_arguments_are_kept() {
    let (free, _) = run_of(&["rlq", "a", "-l", "b"]);
    assert_eq!(free, args(&["a", "b"]));
    let (free, _) = run_of(&["rlq", "-l"]);
    assert!(free.is_empty());
    let (free, _) = run_of(&["rlq", "-l", "-"]);
    assert_eq!(free, args(&["-"]));
}

#[test]
fn wrong_options_are_invalid() {
    match parse_config(args(&["rlq", "--bogus"])) {
        Invocation::Invalid(msg) => assert!(msg.contains("bogus")),
        other => panic!("not invalid: {:?}", other),
    }
    assert!(matches!(parse_config(args(&["rlq", "f", "-g"])), Invocation::Invalid(_)));
    assert!(matches!(
        parse_config(args(&["rlq", "-g", "a", "-g", "b", "f"])),
        Invocation::Invalid(_)
    ));
}

#[test]
fn asks_for_help_cases() {
    assert!(asks_for_help(&args(&[])));
    assert!(asks_for_help(&args(&["-h"])));
    assert!(asks_for_help(&args(&["--help", "x"])));
    assert!(!asks_for_help(&args(&["x", "-h"])));
    assert!(!asks_for_help(&args(&["-help"])));
    assert!(!asks_for_help(&args(&[""])));
}

fn flags() -> Flags {
    Flags {
        help: false,
        list: true,
        select: args(&["a", "b"]),
        groupby: Some("g".to_string()),
        orderby: None,
        free: args(&["f"]),
    }
}

#[test]
fn invocation_of_flags() {
    match invocation_of(Ok(flags())) {
        Invocation::Run(free, config) => {
            assert_eq!(free, args(&["f"]));
            assert!(config.query_list);
            assert_eq!(config.query_select, args(&["a", "b"]));
            assert_eq!(config.query_groupby, "g");
            assert_eq!(config.query_orderby, "");
        }
        other => panic!("not a run: {:?}", other),
    }
    let mut f = flags();
    f.help = true;
    assert!(matches!(invocation_of(Ok(f)), Invocation::Usage));
}

#[test]
fn invocation_of_refusal() {
    match invocation_of(Err("no".to_string())) {
        Invocation::Invalid(reason) => assert_eq!(reason, "no"),
        other => panic!("not invalid: {:?}", other),
    }
}

fn config(list: bool, select: &[&str], groupby: &str, orderby: &str) -> Config {
    Config {
        query_list: list,
        query_select: args(select),
        query_groupby: groupby.to_string(),
        query_orderby: orderby.to_string(),
    }
}

#[test]
fn choose_query_by_precedence() {
    assert!(matches!(choose_query(config(true, &["a"], "g", "o")), Query::List));
    match choose_query(config(false, &["a", "b"], "g", "o")) {
        Query::Select(labels) => assert_eq!(labels, args(&["a", "b"])),
        _ => panic!("select expected"),
    }
    match choose_query(config(false, &[], "g", "o")) {
        Query::GroupBy(label) => assert_eq!(label, "g"),
        _ => panic!("group-by expected"),
    }
    match choose_query(config(false, &[], "", "o")) {
        Query::OrderBy(label) => assert_eq!(label, "o"),
        _ => panic!("order-by expected"),
    }
    assert!(matches!(choose_query(config(false, &[], "", "")), Query::Nothing));
}

#[test]
fn early_exit_codes() {
    assert_eq!(early_exit(&Invocation::Usage), Some(0));
    assert_eq!(early_exit(&Invocation::Invalid("x".to_string())), Some(1));
    assert_eq!(early_exit(&parse_config(args(&["rlq", "--nope"]))), Some(1));
    assert_eq!(early_exit(&parse_config(args(&["rlq", "-l", "f"]))), None);
}

#[test]
fn read_command_gives_flags() {
    let flags = read_command(&cli_options(), &args(&["-s", "a", "x", "-sb", "--groupby=g", "y"])).unwrap();
    assert!(!flags.help);
    assert!(!flags.list);
    assert_eq!(flags.select, args(&["a", "b"]));
    assert_eq!(flags.groupby, Some("g".to_string()));
    assert_eq!(flags.orderby, None);
    assert_eq!(flags.free, args(&["x", "y"]));
    let flags = read_command(&cli_options(), &args(&["-lh"])).unwrap();
    assert!(flags.help);
    assert!(flags.list);
}

#[test]
fn read_command_gives_the_reason_of_a_refusal() {
    let reason = read_command(&cli_options(), &args(&["-x"])).unwrap_err();
    assert_eq!(reason, "Unrecognized option: 'x'");
    let reason = read_command(&cli_options(), &args(&["--orderby"])).unwrap_err();
    assert_eq!(reason, "Argument to option 'orderby' missing");
    let reason = read_command(&cli_options(), &args(&["-l", "-l"])).unwrap_err();
    assert_eq!(reason, "Option 'list' given more than once");
}
