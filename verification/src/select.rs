//! Projection of records onto requested labels.

use vstd::prelude::*;
use vstd::string::*;
use crate::error::{CliError, Error};
use crate::ltsv::{
    blank, content, each_record, fields_of, has_colon, head_of, items_of, label_of,
    label_order_of, labels_of, lacks_colon, lemma_fields_of, lemma_parsed, lemma_parsed_chars,
    maps, parse_head, parsed, read_record, records_of, value_of,
};
use crate::record::{lemma_first_seen, Record};
use crate::text::{
    first_where, join, lemma_find_unique, lemma_first_where_unique, lemma_split_join, split,
    views,
};

verus! {

/// What a record shows for one label: `label:value`, or nothing when the
/// record does not hold the label.
pub open spec fn field(m: Map<Seq<char>, Seq<char>>, label: Seq<char>) -> Seq<char> {
    if m.contains_key(label) {
        label + seq![':'] + m[label]
    } else {
        Seq::empty()
    }
}

/// The fields of a record for the requested labels, in the order requested.
pub open spec fn fields(m: Map<Seq<char>, Seq<char>>, labels: Seq<Seq<char>>) -> Seq<Seq<char>> {
    Seq::new(labels.len(), |i: int| field(m, labels[i]))
}

/// The output line of a record: its fields joined by tabs.
pub open spec fn selected(m: Map<Seq<char>, Seq<char>>, labels: Seq<Seq<char>>) -> Seq<char> {
    join(fields(m, labels), '\t')
}

/// The output lines of a sequence of records.
pub open spec fn selection(records: Seq<Map<Seq<char>, Seq<char>>>, labels: Seq<Seq<char>>) -> Seq<
    Seq<char>,
> {
    Seq::new(records.len(), |i: int| selected(records[i], labels))
}

/// The fields of an output line stand in the order in which the labels were
/// requested, whatever the order of the record: splitting the line at its
/// tabs gives the field of the first label, then that of the second, and so
/// on. This holds of every mapping whose labels and values hold no tab, and of
/// every request for one label or more.
pub proof fn lemma_selected_in_order(m: Map<Seq<char>, Seq<char>>, labels: Seq<Seq<char>>)
    requires
        labels.len() > 0,
        forall|l: Seq<char>| #[trigger] m.contains_key(l) ==> !l.contains('\t') && !m[l].contains('\t'),
    ensures
        split(selected(m, labels), '\t') == fields(m, labels),
{
    let all = fields(m, labels);
    assert forall|i: int| 0 <= i < all.len() implies !(#[trigger] all[i]).contains('\t') by {
        if m.contains_key(labels[i]) {
            lemma_field_chars(m, labels[i], '\t');
        }
    }
    lemma_split_join(all, '\t');
}

/// The output line of a record that was parsed shows its fields in the order
/// in which the labels were requested, whatever the labels are.
pub proof fn lemma_select_order(line: Seq<char>, labels: Seq<Seq<char>>)
    requires
        parsed(line) is Ok,
        labels.len() > 0,
    ensures
        split(selected(parsed(line)->Ok_0, labels), '\t') == fields(parsed(line)->Ok_0, labels),
{
    lemma_parsed_chars(line);
    lemma_selected_in_order(parsed(line)->Ok_0, labels);
}

/// A field holds a character only if its label or its value does, or if the
/// character is the colon.
proof fn lemma_field_chars(m: Map<Seq<char>, Seq<char>>, label: Seq<char>, c: char)
    requires
        c != ':',
        m.contains_key(label),
        !label.contains(c),
        !m[label].contains(c),
    ensures
        !field(m, label).contains(c),
{
    let f = field(m, label);
    if f.contains(c) {
        let k = choose|k: int| 0 <= k < f.len() && f[k] == c;
        if k < label.len() {
            assert(label[k] == c);
        } else if k > label.len() {
            assert(m[label][k - label.len() - 1] == c);
        }
    }
}

/// A field of a label without a colon splits back into the label and its
/// value.
proof fn lemma_field_splits(m: Map<Seq<char>, Seq<char>>, label: Seq<char>)
    requires
        m.contains_key(label),
        !label.contains(':'),
    ensures
        has_colon(field(m, label)),
        label_of(field(m, label)) == label,
        value_of(field(m, label)) == m[label],
{
    let f = field(m, label);
    let n = label.len() as int;
    assert forall|j: int| 0 <= j < n implies f[j] != ':' by {
        assert(f[j] == label[j]);
        assert(label.contains(label[j]));
    }
    assert(f[n] == ':');
    lemma_find_unique(f, ':', n);
    assert(f.take(n) == label);
    assert(f.skip(n + 1) == m[label]);
}

/// The first `n` fields give back what `m` holds for the first `n` labels.
proof fn lemma_fields_rebuild(m: Map<Seq<char>, Seq<char>>, labels: Seq<Seq<char>>, n: int)
    requires
        0 <= n <= labels.len(),
        forall|i: int| 0 <= i < labels.len() ==> m.contains_key(#[trigger] labels[i]),
        forall|i: int| 0 <= i < labels.len() ==> !(#[trigger] labels[i]).contains(':'),
    ensures
        fields_of(fields(m, labels).take(n)) == Map::new(
            |l: Seq<char>| labels.take(n).contains(l),
            |l: Seq<char>| m[l],
        ),
    decreases n,
{
    let all = fields(m, labels);
    let want = Map::new(|l: Seq<char>| labels.take(n).contains(l), |l: Seq<char>| m[l]);
    if n == 0 {
        assert(fields_of(all.take(0)) =~= want);
    } else {
        lemma_fields_rebuild(m, labels, n - 1);
        let fewer = labels.take(n - 1);
        let upto = labels.take(n);
        let before = Map::new(|l: Seq<char>| fewer.contains(l), |l: Seq<char>| m[l]);
        assert(all.take(n).drop_last() == all.take(n - 1));
        assert(all.take(n).last() == field(m, labels[n - 1]));
        lemma_field_splits(m, labels[n - 1]);
        assert forall|l: Seq<char>| want.contains_key(l) <==> before.insert(
            labels[n - 1],
            m[labels[n - 1]],
        ).contains_key(l) by {
            if upto.contains(l) {
                let k = choose|k: int| 0 <= k < upto.len() && upto[k] == l;
                if k < n - 1 {
                    assert(fewer[k] == l);
                }
            }
            if fewer.contains(l) {
                let k = choose|k: int| 0 <= k < fewer.len() && fewer[k] == l;
                assert(upto[k] == l);
            }
            if l == labels[n - 1] {
                assert(upto[n - 1] == l);
            }
        }
        assert(fields_of(all.take(n)) =~= want);
    }
}

/// The last character of joined pieces is that of the last piece.
proof fn lemma_join_last(parts: Seq<Seq<char>>, sep: char)
    requires
        parts.len() > 0,
        parts.last().len() > 0,
    ensures
        join(parts, sep).len() > 0,
        join(parts, sep).last() == parts.last().last(),
{
}

/// Selecting all labels of a record gives a line that parses to the record
/// again: for a mapping `m` and labels that are exactly the labels of `m`, in
/// any order, where no label holds a colon, a tab or a newline and no value a
/// tab or a newline.
pub proof fn lemma_select_all(m: Map<Seq<char>, Seq<char>>, labels: Seq<Seq<char>>)
    requires
        labels.len() > 0,
        forall|i: int| 0 <= i < labels.len() ==> m.contains_key(#[trigger] labels[i]),
        forall|l: Seq<char>| #[trigger] m.contains_key(l) ==> labels.contains(l),
        forall|i: int|
            0 <= i < labels.len() ==> !(#[trigger] labels[i]).contains(':') && !labels[i].contains(
                '\t',
            ),
        forall|l: Seq<char>| #[trigger]
            m.contains_key(l) ==> !m[l].contains('\t') && !m[l].contains('\n'),
    ensures
        parsed(selected(m, labels)) == Ok::<Map<Seq<char>, Seq<char>>, Seq<char>>(m),
{
    let all = fields(m, labels);
    let line = selected(m, labels);
    assert forall|l: Seq<char>| #[trigger] m.contains_key(l) implies !l.contains('\t') by {
        let k = choose|k: int| 0 <= k < labels.len() && labels[k] == l;
        assert(!labels[k].contains('\t'));
    }
    lemma_selected_in_order(m, labels);
    let z = labels.len() - 1;
    lemma_field_splits(m, labels[z]);
    assert(all.last() == field(m, labels[z]));
    lemma_join_last(all, '\t');
    assert(line.last() != '\n') by {
        let f = all.last();
        let v = m[labels[z]];
        if v.len() > 0 {
            assert(f.last() == v.last());
            assert(v.contains(v.last()));
        } else {
            assert(f.last() == ':');
        }
    }
    assert(content(line) == line);
    assert(items_of(line) == all);
    assert forall|i: int| 0 <= i < all.len() implies !lacks_colon()(#[trigger] all[i]) by {
        lemma_field_splits(m, labels[i]);
    }
    crate::text::lemma_first_where_unique(all, lacks_colon(), all.len() as int);
    lemma_fields_rebuild(m, labels, labels.len() as int);
    assert(all.take(labels.len() as int) == all);
    assert(labels.take(labels.len() as int) == labels);
    assert(fields_of(all) =~= m);
}

/// Selecting the labels of a line from its own record gives a line that
/// parses to the same record: nothing of what the line holds is lost. This
/// holds of every line that parses and has no newline inside its content.
pub proof fn lemma_round_trip(line: Seq<char>)
    requires
        parsed(line) is Ok,
        !content(line).contains('\n'),
    ensures
        parsed(selected(parsed(line)->Ok_0, label_order_of(line))) == parsed(line),
{
    let items = items_of(line);
    let m = fields_of(items);
    let labels = label_order_of(line);
    lemma_parsed(line);
    lemma_parsed_chars(line);
    lemma_fields_of(items);
    lemma_first_seen(labels_of(items));
    assert(labels_of(items).len() > 0);
    assert forall|i: int| 0 <= i < labels.len() implies m.contains_key(#[trigger] labels[i])
        && !labels[i].contains(':') && !labels[i].contains('\t') by {
        assert(labels.contains(labels[i]));
        assert(labels_of(items).contains(labels[i]));
    }
    assert forall|l: Seq<char>| #[trigger] m.contains_key(l) implies labels.contains(l) by {
        assert(labels_of(items).contains(l));
    }
    lemma_select_all(m, labels);
}

/// The test for a label that `m` does not hold.
pub open spec fn missing_from(m: Map<Seq<char>, Seq<char>>) -> spec_fn(Seq<char>) -> bool {
    |label: Seq<char>| !m.contains_key(label)
}

/// Checks that the header holds every requested label. The error names the
/// first requested label that it lacks.
pub fn check_labels(header: &Record, labels: &Vec<String>) -> (r: Result<(), CliError>)
    ensures
        match r {
            Ok(_) => first_where(views(labels@), missing_from(header@)) == labels@.len(),
            Err(CliError::UnknownLabel(l)) => {
                let k = first_where(views(labels@), missing_from(header@));
                0 <= k < labels@.len() && l@ == labels@[k]@
            },
            Err(_) => false,
        },
{
    let ghost texts = views(labels@);
    let mut i: usize = 0;
    while i < labels.len()
        invariant
            i <= labels@.len(),
            texts == views(labels@),
            forall|j: int| 0 <= j < i ==> !missing_from(header@)(texts[j]),
        decreases labels@.len() - i,
    {
        if !header.contains(labels[i].as_str()) {
            proof {
                assert(missing_from(header@)(texts[i as int]));
                lemma_first_where_unique(texts, missing_from(header@), i as int);
            }
            return Err(CliError::UnknownLabel(labels[i].clone()));
        }
        i += 1;
    }
    proof {
        lemma_first_where_unique(texts, missing_from(header@), texts.len() as int);
    }
    Ok(())
}

/// The output line of one record: for each requested label, in the order
/// requested, `label:value` or nothing, with a tab between each two.
pub fn select_fields(record: &Record, labels: &Vec<String>) -> (line: String)
    ensures
        line@ == selected(record@, views(labels@)),
{
    let ghost texts = views(labels@);
    let ghost all = fields(record@, texts);
    let mut line = String::new();
    let mut i: usize = 0;
    proof {
        assert(all.take(0) == Seq::<Seq<char>>::empty());
    }
    while i < labels.len()
        invariant
            i <= labels@.len(),
            texts == views(labels@),
            all == fields(record@, texts),
            line@ == join(all.take(i as int), '\t'),
        decreases labels@.len() - i,
    {
        let ghost before = line@;
        if i > 0 {
            line.push('\t');
        }
        let label = labels[i].as_str();
        match record.get(label) {
            Some(value) => {
                line.append(label);
                line.push(':');
                line.append(value.as_str());
            },
            None => {},
        }
        proof {
            let now = all.take(i + 1);
            assert(now.drop_last() == all.take(i as int));
            assert(now.last() == field(record@, texts[i as int]));
            if i == 0 {
                assert(line@ == now[0]);
            } else {
                assert(line@ == before + seq!['\t'] + now.last());
            }
        }
        i += 1;
    }
    assert(all.take(i as int) == all);
    line
}

/// One step of a selection that reads its source line by line: `None` for a
/// blank line, else the output line of the line's record.
pub fn select_line(line: &str, labels: &Vec<String>) -> (r: Result<Option<String>, Error>)
    ensures
        match r {
            Ok(None) => blank(line@),
            Ok(Some(out)) => !blank(line@) && (parsed(line@) matches Ok(m) && out@ == selected(
                m,
                views(labels@),
            )),
            Err(Error::Parse(e)) => !blank(line@) && parsed(line@) == Err::<
                Map<Seq<char>, Seq<char>>,
                Seq<char>,
            >(e.msg@),
            Err(Error::Io(_)) => false,
        },
{
    match read_record(line) {
        Ok(None) => Ok(None),
        Ok(Some(rec)) => Ok(Some(select_fields(&rec, labels))),
        Err(e) => Err(Error::Parse(e)),
    }
}

/// What a selection over `lines` gives.
pub enum Selection {
    /// One output line for each record.
    Lines(Seq<Seq<char>>),
    /// A requested label that the first record lacks.
    Unknown(Seq<char>),
    /// The source does not parse.
    Failed,
}

/// The selection of `labels` over `lines`: the first record decides whether
/// the labels are known, and only then is any line produced.
pub open spec fn selection_of(lines: Seq<Seq<char>>, labels: Seq<Seq<char>>) -> Selection {
    match head_of(lines) {
        Err(_) => Selection::Failed,
        Ok(header) => {
            let k = first_where(labels, missing_from(header));
            if 0 <= k < labels.len() {
                Selection::Unknown(labels[k])
            } else {
                match records_of(lines) {
                    Err(_) => Selection::Failed,
                    Ok(records) => Selection::Lines(selection(records, labels)),
                }
            }
        },
    }
}

/// A requested label that the first record lacks makes the selection fail,
/// whatever the other lines hold: no line is given then.
pub proof fn lemma_unknown_label(lines: Seq<Seq<char>>, labels: Seq<Seq<char>>, i: int)
    requires
        head_of(lines) is Ok,
        0 <= i < labels.len(),
        !(head_of(lines)->Ok_0).contains_key(labels[i]),
    ensures
        selection_of(lines, labels) is Unknown,
        !(head_of(lines)->Ok_0).contains_key(selection_of(lines, labels)->Unknown_0),
{
    let header = head_of(lines)->Ok_0;
    crate::text::lemma_first_where(labels, missing_from(header));
    let k = first_where(labels, missing_from(header));
    if k >= labels.len() {
        assert(!missing_from(header)(labels[i]));
    }
}

/// Projects every record of `lines` onto `labels`.
///
/// The first record is the header: a requested label that it lacks is an
/// error, whatever the later records hold. Otherwise each record, the header
/// among them, gives one output line, in the order of the source. A record
/// that lacks a label shows nothing in its place.
pub fn select(lines: &Vec<String>, labels: &Vec<String>) -> (r: Result<Vec<String>, CliError>)
    ensures
        match r {
            Ok(out) => selection_of(views(lines@), views(labels@)) == Selection::Lines(views(out@)),
            Err(CliError::UnknownLabel(l)) => selection_of(views(lines@), views(labels@))
                == Selection::Unknown(l@),
            Err(CliError::Other) => selection_of(views(lines@), views(labels@))
                == Selection::Failed,
            Err(_) => false,
        },
{
    let header = match parse_head(lines) {
        Ok(header) => header,
        Err(_) => {
            return Err(CliError::Other);
        },
    };
    match check_labels(&header, labels) {
        Ok(_) => {},
        Err(e) => {
            return Err(e);
        },
    }
    let records = match each_record(lines) {
        Ok(records) => records,
        Err(_) => {
            return Err(CliError::Other);
        },
    };
    let ghost want = selection(maps(records@), views(labels@));
    let mut out: Vec<String> = Vec::new();
    let mut i: usize = 0;
    while i < records.len()
        invariant
            i <= records@.len(),
            want == selection(maps(records@), views(labels@)),
            views(out@) == want.take(i as int),
        decreases records@.len() - i,
    {
        let line = select_fields(&records[i], labels);
        proof {
            assert(views(out@.push(line)) == views(out@).push(line@));
            assert(want.take(i + 1) == want.take(i as int).push(line@));
        }
        out.push(line);
        i += 1;
    }
    assert(want.take(i as int) == want);
    Ok(out)
}

} // verus!
