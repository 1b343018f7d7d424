//! The four queries as the command line asks for them: from the lines of a
//! source to the lines to print.

use vstd::prelude::*;
use vstd::string::*;
use crate::error::CliError;
use crate::group::{group_by, grouped, lemma_occurrences, occurrences, Groups};
use crate::ltsv::{head_labels, head_of, parse_head, record_lines, records_of};
use crate::order::{order_by, stable_sort_of};
use crate::record::{first_seen, lemma_first_seen};
use crate::text::{decimal, push_decimal, views};

verus! {

/// The one source that the arguments name. None is too few and more than one
/// is too many.
pub fn source_name(args: &Vec<String>) -> (r: Result<&String, CliError>)
    ensures
        match r {
            Ok(name) => args@.len() == 1 && *name == args@[0],
            Err(CliError::NotEnoughArgs) => args@.len() == 0,
            Err(CliError::TooManyArgs) => args@.len() > 1,
            Err(_) => false,
        },
{
    if args.len() == 0 {
        Err(CliError::NotEnoughArgs)
    } else if args.len() > 1 {
        Err(CliError::TooManyArgs)
    } else {
        Ok(&args[0])
    }
}

/// The exit code of a run: 0 when it went well, 3 for a failure below the
/// query, of which the user has been told already, and 2 for any other.
pub fn exit_code(failure: &Option<CliError>) -> (code: i32)
    ensures
        code == match failure {
            None => 0i32,
            Some(CliError::Other) => 3i32,
            Some(_) => 2i32,
        },
{
    match failure {
        None => 0,
        Some(CliError::Other) => 3,
        Some(_) => 2,
    }
}

/// The labels of the first record, in order of first appearance.
pub fn do_list(lines: &Vec<String>) -> (r: Result<Vec<String>, CliError>)
    ensures
        match r {
            Ok(labels) => head_of(views(lines@)) is Ok && views(labels@) == head_labels(
                views(lines@),
            ),
            Err(CliError::Other) => head_of(views(lines@)) is Err,
            Err(_) => false,
        },
{
    match parse_head(lines) {
        Ok(header) => Ok(header.labels()),
        Err(_) => Err(CliError::Other),
    }
}

/// The line printed for one group: `label:value`, a tab, `count:` and the
/// count in decimal digits.
pub open spec fn group_line(label: Seq<char>, value: Seq<char>, count: nat) -> Seq<char> {
    label + seq![':'] + value + "\tcount:"@ + decimal(count)
}

/// Formats the line of one group.
pub fn format_group(label: &str, value: &str, count: usize) -> (line: String)
    ensures
        line@ == group_line(label@, value@, count as nat),
{
    let mut line = String::from_str(label);
    line.push(':');
    line.append(value);
    line.append("\tcount:");
    push_decimal(&mut line, count);
    line
}

/// The lines printed for `groups`, one for each value in order of first
/// appearance.
pub fn group_lines(groups: &Groups, label: &str) -> (out: Vec<String>)
    ensures
        out@.len() == groups.key_order().len(),
        forall|i: int|
            0 <= i < out@.len() ==> (#[trigger] out@[i])@ == group_line(
                label@,
                groups.key_order()[i],
                groups@[groups.key_order()[i]],
            ),
{
    let entries = groups.entries();
    let mut out: Vec<String> = Vec::new();
    let mut i: usize = 0;
    while i < entries.len()
        invariant
            i <= entries@.len(),
            entries@.len() == groups.key_order().len(),
            out@.len() == i,
            forall|j: int|
                0 <= j < entries@.len() ==> (#[trigger] entries@[j]).0@ == groups.key_order()[j]
                    && entries@[j].1 == groups@[groups.key_order()[j]],
            forall|j: int|
                0 <= j < i ==> (#[trigger] out@[j])@ == group_line(
                    label@,
                    groups.key_order()[j],
                    groups@[groups.key_order()[j]],
                ),
        decreases entries@.len() - i,
    {
        let line = format_group(label, entries[i].0.as_str(), entries[i].1);
        out.push(line);
        i += 1;
    }
    out
}

/// The lines printed for the groups of `values`: one for each value, in
/// order of first appearance, with the number of its occurrences.
pub open spec fn group_report(values: Seq<Seq<char>>, label: Seq<char>) -> Seq<Seq<char>> {
    let order = first_seen(values);
    Seq::new(order.len(), |i: int| group_line(label, order[i], occurrences(values, order[i])))
}

/// Counts the records by their value for `label` and gives one line for each
/// value, in order of first appearance.
pub fn do_groupby(lines: &Vec<String>, label: &str) -> (r: Result<Vec<String>, CliError>)
    ensures
        match r {
            Ok(out) => records_of(views(lines@)) is Ok && views(out@) == group_report(
                grouped(views(lines@), label@),
                label@,
            ),
            Err(CliError::Other) => records_of(views(lines@)) is Err,
            Err(_) => false,
        },
{
    match group_by(lines, label) {
        Ok(groups) => {
            let out = group_lines(&groups, label);
            proof {
                let values = grouped(views(lines@), label@);
                let order = first_seen(values);
                lemma_first_seen(values);
                assert forall|i: int| 0 <= i < order.len() implies groups@[order[i]]
                    == occurrences(values, order[i]) by {
                    assert(order.contains(order[i]));
                    lemma_occurrences(values, order[i]);
                }
                assert(views(out@) =~= group_report(values, label@));
            }
            Ok(out)
        },
        Err(_) => Err(CliError::Other),
    }
}

/// The lines that hold a record, ordered by their value for `label`.
pub fn do_orderby(lines: &Vec<String>, label: &str) -> (r: Result<Vec<String>, CliError>)
    ensures
        match r {
            Ok(out) => records_of(views(lines@)) is Ok && stable_sort_of(
                views(out@),
                record_lines(views(lines@)),
                label@,
            ),
            Err(CliError::Other) => records_of(views(lines@)) is Err,
            Err(_) => false,
        },
{
    match order_by(lines, label) {
        Ok(out) => Ok(out),
        Err(_) => Err(CliError::Other),
    }
}

} // verus!
