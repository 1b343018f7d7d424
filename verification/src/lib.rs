//! Queries over LTSV text: lines of `label:value` items separated by tabs.
//!
//! A source is a sequence of lines. Blank lines part records and are passed
//! over; every other line is a record. Four queries read a source: the labels
//! of the first record (`query::do_list`), the values of chosen labels in
//! every record (`select::select`), the number of records for each value of
//! a label (`group::group_by`), and the records ordered by the value of a
//! label (`order::order_by`). A line that is no record ends a query with an
//! error.
//!
//! The library does not read files. A caller that reads a source line by line
//! hands each line to `ltsv::read_record`, `select::select_line` or
//! `group::Groups::feed`; the functions that take all lines at once are built
//! from these, and their contracts say what a query gives for a whole source.
//!
//! `options` reads the command line of the `rlq` program and `query` shapes
//! the lines that it prints.

pub mod error;
pub mod group;
pub mod ltsv;
pub mod optparse;
pub mod options;
pub mod order;
pub mod query;
pub mod record;
pub mod select;
pub mod text;
