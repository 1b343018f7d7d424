//! The command line: its options, and what a run is asked to do.

use vstd::prelude::*;
use vstd::string::*;
use crate::optparse::{
    add_flag, add_multi, add_single, fail_text, flag_present, flag_value, flag_values, free,
    free_args, known, names, no_options, parse_args, parsing, present, refusal, text_of,
    usage_of, usage_text, value, values,
};
use crate::text::views;

verus! {

/// What a run is asked to do. The first of the four that is set decides.
#[derive(Debug)]
pub struct Config {
    /// List the labels of the first record.
    pub query_list: bool,
    /// Show these labels of every record; empty when not asked for.
    pub query_select: Vec<String>,
    /// Count the records by this label; empty when not asked for.
    pub query_groupby: String,
    /// Order the records by this label; empty when not asked for.
    pub query_orderby: String,
}

/// What the options of a command line say, as plain values.
#[derive(Debug)]
pub struct Flags {
    pub help: bool,
    pub list: bool,
    pub select: Vec<String>,
    pub groupby: Option<String>,
    pub orderby: Option<String>,
    /// The arguments that are no option.
    pub free: Vec<String>,
}

/// What a command line asks for.
#[derive(Debug)]
pub enum Invocation {
    /// Show the usage text and end well.
    Usage,
    /// Show this message and end with exit code 1: the options are wrong.
    Invalid(String),
    /// Run the query of the config on the sources named.
    Run(Vec<String>, Config),
}

/// The query that a config asks for.
#[derive(Debug)]
pub enum Query {
    List,
    Select(Vec<String>),
    GroupBy(String),
    OrderBy(String),
    /// The config asks for nothing.
    Nothing,
}

/// The text of an option's argument; empty when there is none.
pub open spec fn text_or_empty(value: Option<String>) -> Seq<char> {
    match value {
        Some(s) => s@,
        None => Seq::empty(),
    }
}

/// The argument of an option, or an empty string when there is none.
fn or_empty(value: Option<String>) -> (s: String)
    ensures
        s@ == text_or_empty(value),
{
    match value {
        Some(s) => s,
        None => String::new(),
    }
}

/// What follows from the reading of the options: a refusal makes the line
/// invalid, with the reason; the help option asks for the usage text; any
/// other line asks for a run on the sources named, with the config that the
/// options give.
pub open spec fn follows(outcome: Result<Flags, String>, r: Invocation) -> bool {
    match outcome {
        Err(reason) => r == Invocation::Invalid(reason),
        Ok(flags) => if flags.help {
            r == Invocation::Usage
        } else {
            &&& r matches Invocation::Run(free, config)
            &&& free == flags.free
            &&& config.query_list == flags.list
            &&& config.query_select == flags.select
            &&& config.query_groupby@ == text_or_empty(flags.groupby)
            &&& config.query_orderby@ == text_or_empty(flags.orderby)
        },
    }
}

/// What the reading of the options asks for.
pub fn invocation_of(outcome: Result<Flags, String>) -> (r: Invocation)
    ensures
        follows(outcome, r),
{
    match outcome {
        Err(reason) => Invocation::Invalid(reason),
        Ok(flags) => if flags.help {
            Invocation::Usage
        } else {
            let config = Config {
                query_list: flags.list,
                query_select: flags.select,
                query_groupby: or_empty(flags.groupby),
                query_orderby: or_empty(flags.orderby),
            };
            Invocation::Run(flags.free, config)
        },
    }
}

/// The exit code of a command line that asks for no run: 0 after the usage
/// text and 1 for options that are wrong. A run ends with the code of its
/// query.
pub fn early_exit(invocation: &Invocation) -> (code: Option<i32>)
    ensures
        code == match invocation {
            Invocation::Usage => Some(0i32),
            Invocation::Invalid(_) => Some(1i32),
            Invocation::Run(_, _) => None::<i32>,
        },
{
    match invocation {
        Invocation::Usage => Some(0),
        Invocation::Invalid(_) => Some(1),
        Invocation::Run(_, _) => None,
    }
}

/// The query of a config: listing before selecting, selecting before
/// counting, counting before ordering.
pub fn choose_query(config: Config) -> (q: Query)
    ensures
        q == if config.query_list {
            Query::List
        } else if config.query_select@.len() > 0 {
            Query::Select(config.query_select)
        } else if config.query_groupby@.len() > 0 {
            Query::GroupBy(config.query_groupby)
        } else if config.query_orderby@.len() > 0 {
            Query::OrderBy(config.query_orderby)
        } else {
            Query::Nothing
        },
{
    if config.query_list {
        Query::List
    } else if config.query_select.len() > 0 {
        Query::Select(config.query_select)
    } else if !config.query_groupby.as_str().is_empty() {
        Query::GroupBy(config.query_groupby)
    } else if !config.query_orderby.as_str().is_empty() {
        Query::OrderBy(config.query_orderby)
    } else {
        Query::Nothing
    }
}

/// Whether the arguments ask for the usage text before any option is read:
/// there is none, or the first is `-h` or `--help`.
pub open spec fn help_first(args: Seq<Seq<char>>) -> bool {
    args.len() == 0 || args[0] == "-h"@ || args[0] == "--help"@
}

/// Whether the arguments ask for the usage text before any option is read.
pub fn asks_for_help(args: &Vec<String>) -> (r: bool)
    ensures
        r == help_first(views(args@)),
{
    args.len() == 0 || crate::text::str_eq(args[0].as_str(), "-h") || crate::text::str_eq(
        args[0].as_str(),
        "--help",
    )
}

/// The names of the options of the command line.
pub open spec fn option_names() -> Set<Seq<char>> {
    set![
        "l"@,
        "list"@,
        "s"@,
        "select"@,
        "g"@,
        "groupby"@,
        "o"@,
        "orderby"@,
        "h"@,
        "help"@,
    ]
}

/// The options of the command line.
pub fn cli_options() -> (options: getopts::Options)
    ensures
        names(options) == option_names(),
        !names(options).contains(Seq::<char>::empty()),
{
    proof {
        reveal_strlit("l");
        reveal_strlit("list");
        reveal_strlit("s");
        reveal_strlit("select");
        reveal_strlit("g");
        reveal_strlit("groupby");
        reveal_strlit("o");
        reveal_strlit("orderby");
        reveal_strlit("h");
        reveal_strlit("help");
    }
    let mut options = no_options();
    add_flag(&mut options, "l", "list", "list LTSV labels");
    add_multi(&mut options, "s", "select", "select fields by specified labels", "LABEL");
    add_single(
        &mut options,
        "g",
        "groupby",
        "group element by specified labels (the default aggregation method: 'count')",
        "LABEL",
    );
    add_single(
        &mut options,
        "o",
        "orderby",
        "order record by specified labels (the default order: 'asc')",
        "LABEL",
    );
    add_flag(&mut options, "h", "help", "show this message");
    assert(names(options) =~= option_names());
    assert(!option_names().contains(Seq::<char>::empty())) by {
        assert("l"@.len() == 1 && "list"@.len() == 4);
        assert("s"@.len() == 1 && "select"@.len() == 6);
        assert("g"@.len() == 1 && "groupby"@.len() == 7);
        assert("o"@.len() == 1 && "orderby"@.len() == 7);
        assert("h"@.len() == 1 && "help"@.len() == 4);
    }
    options
}

/// The first line of the usage text.
pub open spec fn usage_brief() -> Seq<char> {
    "Usage: rlq [ options ... ] [URL]\n\twhere options include"@
}

/// The usage text for the given options: what `getopts` says of them under
/// the first line of the program.
pub fn usage(options: &getopts::Options) -> (text: String)
    ensures
        text@ == usage_of(*options, usage_brief()),
{
    usage_text(options, "Usage: rlq [ options ... ] [URL]\n\twhere options include")
}

/// What `matches` says, as plain values.
pub open spec fn flags_of(matches: getopts::Matches, flags: Flags) -> bool {
    &&& flags.help == (present(matches, "h"@) || present(matches, "help"@))
    &&& flags.list == present(matches, "list"@)
    &&& views(flags.select@) == values(matches, "select"@)
    &&& text_of(flags.groupby) == value(matches, "groupby"@)
    &&& text_of(flags.orderby) == value(matches, "orderby"@)
    &&& views(flags.free@) == free(matches)
}

/// Reads what was found on a command line into plain values.
fn read_flags(matches: &getopts::Matches) -> (flags: Flags)
    requires
        option_names().subset_of(known(*matches)),
    ensures
        flags_of(*matches, flags),
{
    let h = flag_present(matches, "h");
    let help = flag_present(matches, "help");
    Flags {
        help: h || help,
        list: flag_present(matches, "list"),
        select: flag_values(matches, "select"),
        groupby: flag_value(matches, "groupby"),
        orderby: flag_value(matches, "orderby"),
        free: free_args(matches),
    }
}

/// The arguments after the first, which names the program.
fn after_program(args: &Vec<String>) -> (rest: Vec<String>)
    requires
        args@.len() > 0,
    ensures
        views(rest@) == views(args@).skip(1),
{
    let mut rest: Vec<String> = Vec::new();
    let mut i: usize = 1;
    while i < args.len()
        invariant
            1 <= i <= args@.len(),
            views(rest@) == views(args@).subrange(1, i as int),
        decreases args@.len() - i,
    {
        let a = args[i].clone();
        proof {
            assert(views(rest@.push(a)) == views(rest@).push(a@));
            assert(views(args@).subrange(1, i + 1) == views(args@).subrange(1, i as int).push(a@));
        }
        rest.push(a);
        i += 1;
    }
    assert(views(args@).subrange(1, i as int) == views(args@).skip(1));
    rest
}

/// What reading `args` under `options` gives: the flags found, or the reason
/// for a refusal.
pub open spec fn command_of(
    options: getopts::Options,
    args: Seq<Seq<char>>,
    outcome: Result<Flags, String>,
) -> bool {
    match parsing(options, args) {
        Ok(matches) => outcome matches Ok(flags) && flags_of(matches, flags),
        Err(fail) => outcome matches Err(reason) && reason@ == refusal(fail),
    }
}

/// Reads the arguments under the given options: what the options of the line
/// say, or the reason for which `getopts` refuses the line.
pub fn read_command(options: &getopts::Options, args: &Vec<String>) -> (r: Result<Flags, String>)
    requires
        option_names().subset_of(names(*options)),
        !names(*options).contains(Seq::<char>::empty()),
    ensures
        command_of(*options, views(args@), r),
{
    match parse_args(options, args) {
        Err(fail) => Err(fail_text(&fail)),
        Ok(matches) => Ok(read_flags(&matches)),
    }
}

/// Reads a command line, the program's name first.
///
/// Without further arguments, or with `-h` or `--help` as the first of them,
/// the usage text is asked for, whatever else the line holds. Otherwise the
/// arguments are read under the options of the command line, as
/// `read_command` says, and what `follows` from that reading is the result.
pub fn parse_config(args: Vec<String>) -> (r: Invocation)
    requires
        args@.len() > 0,
    ensures
        if help_first(views(args@).skip(1)) {
            r == Invocation::Usage
        } else {
            exists|options: getopts::Options, outcome: Result<Flags, String>|
                {
                    &&& names(options) == option_names()
                    &&& #[trigger] command_of(options, views(args@).skip(1), outcome)
                    &&& follows(outcome, r)
                }
        },
{
    let rest = after_program(&args);
    if asks_for_help(&rest) {
        Invocation::Usage
    } else {
        let options = cli_options();
        let outcome = read_command(&options, &rest);
        let ghost read = outcome;
        let r = invocation_of(outcome);
        assert(command_of(options, views(args@).skip(1), read) && follows(read, r));
        r
    }
}

} // verus!
