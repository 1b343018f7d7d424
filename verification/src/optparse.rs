//! The `getopts` crate as this library uses it. Nothing in this file is
//! proved: each item says what the library takes `getopts` to do.

use vstd::prelude::*;
use vstd::string::*;
use vstd::utf8::is_ascii_chars;
use crate::text::views;

verus! {

/// The options that a command line may hold, as `getopts` keeps them.
#[verifier::external_type_specification]
#[verifier::external_body]
pub struct ExOptions(getopts::Options);

/// What `getopts` found on a command line.
#[verifier::external_type_specification]
#[verifier::external_body]
pub struct ExMatches(getopts::Matches);

/// Why `getopts` refused a command line.
#[verifier::external_type_specification]
#[verifier::external_body]
pub struct ExFail(getopts::Fail);

/// The names, short and long, of all options that `options` holds.
pub uninterp spec fn names(options: getopts::Options) -> Set<Seq<char>>;

/// The names under which `matches` can be asked for an option.
pub uninterp spec fn known(matches: getopts::Matches) -> Set<Seq<char>>;

/// What `getopts` makes of the arguments `args` under `options`: what it
/// found, or why it refused them.
pub uninterp spec fn parsing(options: getopts::Options, args: Seq<Seq<char>>) -> Result<
    getopts::Matches,
    getopts::Fail,
>;

/// Whether `matches` holds the option `name`.
pub uninterp spec fn present(matches: getopts::Matches, name: Seq<char>) -> bool;

/// The arguments that `matches` holds for all uses of the option `name`.
pub uninterp spec fn values(matches: getopts::Matches, name: Seq<char>) -> Seq<Seq<char>>;

/// The argument that `matches` holds for the option `name`, if any.
pub uninterp spec fn value(matches: getopts::Matches, name: Seq<char>) -> Option<Seq<char>>;

/// The arguments in `matches` that are no option.
pub uninterp spec fn free(matches: getopts::Matches) -> Seq<Seq<char>>;

/// The text in which `getopts` describes `options` under the line `brief`.
pub uninterp spec fn usage_of(options: getopts::Options, brief: Seq<char>) -> Seq<char>;

/// The text in which `getopts` says why it refused a command line.
pub uninterp spec fn refusal(fail: getopts::Fail) -> Seq<char>;

/// A short name is one ASCII character and a long name has two characters
/// or more: the names that `getopts` takes for an option that has both.
pub open spec fn valid_names(short: Seq<char>, long: Seq<char>) -> bool {
    short.len() == 1 && is_ascii_chars(short) && long.len() >= 2
}

/// `getopts::Options::new`: a set of options that holds none.
#[verifier::external_body]
pub(crate) fn no_options() -> (options: getopts::Options)
    ensures
        names(options) == Set::<Seq<char>>::empty(),
{
    getopts::Options::new()
}

/// `getopts::Options::optflag`: adds an option without an argument that may
/// be given once. It panics on a short name that is not one byte or empty and
/// on a long name of one byte, which `valid_names` excludes.
#[verifier::external_body]
pub(crate) fn add_flag(options: &mut getopts::Options, short: &str, long: &str, desc: &str)
    requires
        valid_names(short@, long@),
    ensures
        names(*final(options)) == names(*old(options)).insert(short@).insert(long@),
{
    options.optflag(short, long, desc);
}

/// `getopts::Options::optmulti`: adds an option with an argument that may be
/// given several times. It panics on the names that `optflag` panics on.
#[verifier::external_body]
pub(crate) fn add_multi(options: &mut getopts::Options, short: &str, long: &str, desc: &str, hint: &str)
    requires
        valid_names(short@, long@),
    ensures
        names(*final(options)) == names(*old(options)).insert(short@).insert(long@),
{
    options.optmulti(short, long, desc, hint);
}

/// `getopts::Options::optopt`: adds an option with an argument that may be
/// given once. It panics on the names that `optflag` panics on.
#[verifier::external_body]
pub(crate) fn add_single(options: &mut getopts::Options, short: &str, long: &str, desc: &str, hint: &str)
    requires
        valid_names(short@, long@),
    ensures
        names(*final(options)) == names(*old(options)).insert(short@).insert(long@),
{
    options.optopt(short, long, desc, hint);
}

/// `getopts::Options::parse`: reads the arguments against the options. It
/// panics on an option that has neither name; here no option has an empty
/// name. What it gives depends on the options and the arguments alone, and
/// is called `parsing` of them; whatever it finds can be asked under every
/// name of the options. Nothing more is claimed of what it finds.
#[verifier::external_body]
pub(crate) fn parse_args(options: &getopts::Options, args: &Vec<String>) -> (r: Result<
    getopts::Matches,
    getopts::Fail,
>)
    requires
        !names(*options).contains(Seq::<char>::empty()),
    ensures
        r == parsing(*options, views(args@)),
        r matches Ok(m) ==> names(*options).subset_of(known(m)),
{
    options.parse(args)
}

/// `getopts::Matches::opt_present`: whether the option was given, which
/// depends on the matches and the name alone. It panics on a name that is
/// not known.
#[verifier::external_body]
pub(crate) fn flag_present(matches: &getopts::Matches, name: &str) -> (r: bool)
    requires
        known(*matches).contains(name@),
    ensures
        r == present(*matches, name@),
{
    matches.opt_present(name)
}

/// `getopts::Matches::opt_strs`: the arguments of all uses of the option,
/// which depend on the matches and the name alone. It panics on a name that
/// is not known.
#[verifier::external_body]
pub(crate) fn flag_values(matches: &getopts::Matches, name: &str) -> (r: Vec<String>)
    requires
        known(*matches).contains(name@),
    ensures
        views(r@) == values(*matches, name@),
{
    matches.opt_strs(name)
}

/// `getopts::Matches::opt_str`: the argument of the option, if it was given
/// with one, which depends on the matches and the name alone. It panics on a
/// name that is not known.
#[verifier::external_body]
pub(crate) fn flag_value(matches: &getopts::Matches, name: &str) -> (r: Option<String>)
    requires
        known(*matches).contains(name@),
    ensures
        text_of(r) == value(*matches, name@),
{
    matches.opt_str(name)
}

/// The field `free` of `getopts::Matches`: the arguments that are no option.
#[verifier::external_body]
pub(crate) fn free_args(matches: &getopts::Matches) -> (r: Vec<String>)
    ensures
        views(r@) == free(*matches),
{
    matches.free.clone()
}

/// The `Display` of `getopts::Fail`: the reason for a refusal, in words.
#[verifier::external_body]
pub(crate) fn fail_text(fail: &getopts::Fail) -> (r: String)
    ensures
        r@ == refusal(*fail),
{
    fail.to_string()
}

/// `getopts::Options::usage`: the text that describes the options, under the
/// line `brief`. It depends on the options and that line alone.
#[verifier::external_body]
pub(crate) fn usage_text(options: &getopts::Options, brief: &str) -> (r: String)
    ensures
        r@ == usage_of(*options, brief@),
{
    options.usage(brief)
}

/// The text of an argument that may be missing.
pub open spec fn text_of(value: Option<String>) -> Option<Seq<char>> {
    match value {
        Some(s) => Some(s@),
        None => None,
    }
}

} // verus!
