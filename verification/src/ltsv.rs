//! Lines of `label:value` items separated by tabs, and the records they hold.

use vstd::prelude::*;
use vstd::string::*;
use crate::error::{Error, ParseError};
use crate::record::{first_seen, Record};
use crate::text::{
    chars_of, find, first_where, lemma_find, lemma_find_unique, lemma_first_where_unique, split,
    split_on, str_eq, views,
};

verus! {

/// A line without its terminator: one newline at the end is dropped.
pub open spec fn content(line: Seq<char>) -> Seq<char> {
    if line.len() > 0 && line.last() == '\n' {
        line.drop_last()
    } else {
        line
    }
}

/// A line that holds nothing, or nothing but its terminator.
pub open spec fn blank(line: Seq<char>) -> bool {
    content(line).len() == 0
}

/// The items of a line: what stands between the tabs of its content.
pub open spec fn items_of(line: Seq<char>) -> Seq<Seq<char>> {
    split(content(line), '\t')
}

/// Whether an item holds a colon, which parts its label from its value.
pub open spec fn has_colon(item: Seq<char>) -> bool {
    find(item, ':') < item.len()
}

/// What stands before the first colon of an item.
pub open spec fn label_of(item: Seq<char>) -> Seq<char> {
    item.take(find(item, ':'))
}

/// What stands after the first colon of an item.
pub open spec fn value_of(item: Seq<char>) -> Seq<char> {
    item.skip(find(item, ':') + 1)
}

/// The label of each item, in order.
pub open spec fn labels_of(items: Seq<Seq<char>>) -> Seq<Seq<char>> {
    Seq::new(items.len(), |i: int| label_of(items[i]))
}

/// The mapping that the items give, read from left to right: of two items
/// with one label the later decides.
pub open spec fn fields_of(items: Seq<Seq<char>>) -> Map<Seq<char>, Seq<char>>
    decreases items.len(),
{
    if items.len() == 0 {
        Map::empty()
    } else {
        fields_of(items.drop_last()).insert(label_of(items.last()), value_of(items.last()))
    }
}

/// The test for an item without a colon.
pub open spec fn lacks_colon() -> spec_fn(Seq<char>) -> bool {
    |item: Seq<char>| !has_colon(item)
}

/// The message of the error for an item without a colon.
pub open spec fn invalid_item(item: Seq<char>) -> Seq<char> {
    "invalid ltsv item: "@ + item
}

/// What parsing a line gives: the mapping from label to value when every item
/// has a colon, else the message that names the first item without one.
pub open spec fn parsed(line: Seq<char>) -> Result<Map<Seq<char>, Seq<char>>, Seq<char>> {
    let items = items_of(line);
    let bad = first_where(items, lacks_colon());
    if 0 <= bad < items.len() {
        Err(invalid_item(items[bad]))
    } else {
        Ok(fields_of(items))
    }
}

/// The labels of a line in order of first appearance, each once.
pub open spec fn label_order_of(line: Seq<char>) -> Seq<Seq<char>> {
    first_seen(labels_of(items_of(line)))
}

/// The test for a line that is not blank.
pub open spec fn not_blank() -> spec_fn(Seq<char>) -> bool {
    |line: Seq<char>| !blank(line)
}

/// The message of the error for a source without a record.
pub open spec fn no_record() -> Seq<char> {
    "no record found"@
}

/// What the first line that is not blank parses to; an error when every line
/// is blank or there is none.
pub open spec fn head_of(lines: Seq<Seq<char>>) -> Result<Map<Seq<char>, Seq<char>>, Seq<char>> {
    let h = first_where(lines, not_blank());
    if 0 <= h < lines.len() {
        parsed(lines[h])
    } else {
        Err(no_record())
    }
}

/// The labels of the first line that is not blank, in order of first
/// appearance.
pub open spec fn head_labels(lines: Seq<Seq<char>>) -> Seq<Seq<char>> {
    label_order_of(lines[first_where(lines, not_blank())])
}

/// What the lines parse to, blank lines left out: the mapping of every record
/// in order, or the message of the first line that fails.
pub open spec fn records_of(lines: Seq<Seq<char>>) -> Result<
    Seq<Map<Seq<char>, Seq<char>>>,
    Seq<char>,
>
    decreases lines.len(),
{
    if lines.len() == 0 {
        Ok(Seq::empty())
    } else {
        match records_of(lines.drop_last()) {
            Err(msg) => Err(msg),
            Ok(before) => if blank(lines.last()) {
                Ok(before)
            } else {
                match parsed(lines.last()) {
                    Err(msg) => Err(msg),
                    Ok(m) => Ok(before.push(m)),
                }
            },
        }
    }
}

/// The lines that are not blank, in order.
pub open spec fn record_lines(lines: Seq<Seq<char>>) -> Seq<Seq<char>>
    decreases lines.len(),
{
    if lines.len() == 0 {
        Seq::empty()
    } else if blank(lines.last()) {
        record_lines(lines.drop_last())
    } else {
        record_lines(lines.drop_last()).push(lines.last())
    }
}

/// Where all lines parse, the records are those of the lines that are not
/// blank, one for each and in their order.
pub proof fn lemma_records_lines(lines: Seq<Seq<char>>)
    requires
        records_of(lines) is Ok,
    ensures
        (records_of(lines)->Ok_0).len() == record_lines(lines).len(),
        forall|i: int|
            0 <= i < record_lines(lines).len() ==> parsed(#[trigger] record_lines(lines)[i])
                == Ok::<Map<Seq<char>, Seq<char>>, Seq<char>>((records_of(lines)->Ok_0)[i]),
    decreases lines.len(),
{
    if lines.len() > 0 {
        lemma_records_lines(lines.drop_last());
    }
}

/// The mappings held by a sequence of records, in order.
pub open spec fn maps(records: Seq<Record>) -> Seq<Map<Seq<char>, Seq<char>>> {
    Seq::new(records.len(), |i: int| records[i]@)
}

/// No item after the one at `i` has its label.
pub open spec fn decides(items: Seq<Seq<char>>, i: int) -> bool {
    forall|j: int| i < j < items.len() ==> label_of(#[trigger] items[j]) != label_of(items[i])
}

/// The mapping of a line holds the labels of its items and no others, and
/// gives a label the value of the last item that has the label.
pub proof fn lemma_fields_of(items: Seq<Seq<char>>)
    ensures
        forall|l: Seq<char>| #[trigger]
            fields_of(items).contains_key(l) <==> labels_of(items).contains(l),
        forall|i: int|
            0 <= i < items.len() && #[trigger] decides(items, i) ==> fields_of(items)[label_of(
                items[i],
            )] == value_of(items[i]),
    decreases items.len(),
{
    if items.len() > 0 {
        let init = items.drop_last();
        let n = init.len() as int;
        lemma_fields_of(init);
        assert forall|l: Seq<char>| #[trigger]
            fields_of(items).contains_key(l) <==> labels_of(items).contains(l) by {
            assert(fields_of(init).contains_key(l) <==> labels_of(init).contains(l));
            assert(fields_of(items) == fields_of(init).insert(
                label_of(items.last()),
                value_of(items.last()),
            ));
            if labels_of(items).contains(l) {
                let k = choose|k: int| 0 <= k < items.len() && labels_of(items)[k] == l;
                if k < n {
                    assert(labels_of(init)[k] == l);
                } else {
                    assert(items[k] == items.last());
                }
            }
            if labels_of(init).contains(l) {
                let k = choose|k: int| 0 <= k < n && labels_of(init)[k] == l;
                assert(labels_of(items)[k] == l);
            }
            if l == label_of(items.last()) {
                assert(labels_of(items)[n] == l);
            }
        }
        assert forall|i: int| 0 <= i < items.len() && #[trigger] decides(items, i) implies fields_of(
            items,
        )[label_of(items[i])] == value_of(items[i]) by {
            assert(fields_of(items) == fields_of(init).insert(
                label_of(items.last()),
                value_of(items.last()),
            ));
            if i < n {
                assert(items[n] == items.last());
                assert(label_of(items[n]) != label_of(items[i]));
                assert(decides(init, i)) by {
                    assert forall|j: int| i < j < init.len() implies label_of(#[trigger] init[j])
                        != label_of(init[i]) by {
                        assert(init[j] == items[j]);
                    }
                }
                assert(init[i] == items[i]);
            }
        }
    }
}

/// Every value of the mapping is the value of an item with that label.
pub proof fn lemma_values_from_items(items: Seq<Seq<char>>)
    ensures
        forall|l: Seq<char>| #[trigger]
            fields_of(items).contains_key(l) ==> exists|k: int|
                0 <= k < items.len() && label_of(#[trigger] items[k]) == l && fields_of(items)[l]
                    == value_of(items[k]),
    decreases items.len(),
{
    if items.len() > 0 {
        let init = items.drop_last();
        lemma_values_from_items(init);
        assert forall|l: Seq<char>| #[trigger] fields_of(items).contains_key(l) implies exists|
            k: int,
        |
            0 <= k < items.len() && label_of(#[trigger] items[k]) == l && fields_of(items)[l]
                == value_of(items[k]) by {
            if l == label_of(items.last()) {
                assert(items[items.len() - 1] == items.last());
            } else {
                assert(fields_of(init).contains_key(l));
                let k = choose|k: int|
                    0 <= k < init.len() && label_of(#[trigger] init[k]) == l && fields_of(init)[l]
                        == value_of(init[k]);
                assert(items[k] == init[k]);
            }
        }
    }
}

/// What the record of a line cannot hold: a label has neither colon nor tab,
/// and a value has no tab. Nor has a value a newline, where the content of the
/// line has none.
pub proof fn lemma_parsed_chars(line: Seq<char>)
    requires
        parsed(line) is Ok,
    ensures
        forall|l: Seq<char>| #[trigger]
            (parsed(line)->Ok_0).contains_key(l) ==> {
                &&& !l.contains(':')
                &&& !l.contains('\t')
                &&& !(parsed(line)->Ok_0)[l].contains('\t')
                &&& !content(line).contains('\n') ==> !(parsed(line)->Ok_0)[l].contains('\n')
            },
{
    let items = items_of(line);
    let m = fields_of(items);
    lemma_parsed(line);
    lemma_values_from_items(items);
    crate::text::lemma_split_pieces(content(line), '\t');
    assert forall|l: Seq<char>| #[trigger] m.contains_key(l) implies {
        &&& !l.contains(':')
        &&& !l.contains('\t')
        &&& !m[l].contains('\t')
        &&& !content(line).contains('\n') ==> !m[l].contains('\n')
    } by {
        let k = choose|k: int|
            0 <= k < items.len() && label_of(#[trigger] items[k]) == l && m[l] == value_of(
                items[k],
            );
        let item = items[k];
        let v = value_of(item);
        lemma_find(item, ':');
        let f = find(item, ':');
        assert(has_colon(item)) by {
            if !has_colon(item) {
                assert(parsed(line) is Err);
            }
        }
        if l.contains(':') {
            let j = choose|j: int| 0 <= j < l.len() && l[j] == ':';
            assert(item[j] == ':');
        }
        if l.contains('\t') {
            let j = choose|j: int| 0 <= j < l.len() && l[j] == '\t';
            assert(item[j] == '\t');
            assert(item.contains('\t'));
        }
        if v.contains('\t') {
            let j = choose|j: int| 0 <= j < v.len() && v[j] == '\t';
            assert(item[j + f + 1] == '\t');
            assert(item.contains('\t'));
        }
        if v.contains('\n') {
            let j = choose|j: int| 0 <= j < v.len() && v[j] == '\n';
            assert(item[j + f + 1] == '\n');
            assert(item.contains('\n'));
            assert(content(line).contains('\n'));
        }
    }
}

/// A line parses unless one of its items has no colon. A line that parses
/// has at least one label.
pub proof fn lemma_parsed(line: Seq<char>)
    ensures
        parsed(line) is Err <==> exists|i: int|
            0 <= i < items_of(line).len() && !has_colon(#[trigger] items_of(line)[i]),
        parsed(line) matches Ok(m) ==> m == fields_of(items_of(line)) && items_of(line).len() > 0
            && m.contains_key(label_of(items_of(line)[0])),
{
    let items = items_of(line);
    crate::text::lemma_first_where(items, lacks_colon());
    crate::text::lemma_split_nonempty(content(line), '\t');
    let bad = first_where(items, lacks_colon());
    if bad < items.len() {
        assert(!has_colon(items[bad]));
    } else {
        assert forall|i: int| 0 <= i < items.len() implies has_colon(#[trigger] items[i]) by {
            assert(!lacks_colon()(items[i]));
        }
        lemma_fields_of(items);
        assert(labels_of(items)[0] == label_of(items[0]));
    }
}

/// Whether `line` is empty or holds only a newline.
pub fn is_blank(line: &str) -> (r: bool)
    ensures
        r == blank(line@),
{
    proof {
        reveal_strlit("");
        reveal_strlit("\n");
        if line@.len() == 1 && line@[0] == '\n' {
            assert(line@ =~= "\n"@);
        }
        if line@.len() == 0 {
            assert(line@ =~= ""@);
        }
    }
    str_eq(line, "") || str_eq(line, "\n")
}

/// Splits an item at its first colon into label and value; `None` for an
/// item without a colon.
pub fn split_field(item: &str) -> (r: Option<(String, String)>)
    ensures
        match r {
            Some((label, value)) => has_colon(item@) && label@ == label_of(item@) && value@
                == value_of(item@),
            None => !has_colon(item@),
        },
{
    let mut label = String::new();
    let mut value = String::new();
    let mut seen = false;
    let ghost mut at: int = 0;
    for c in it: item.chars()
        invariant
            it.seq() == item@,
            !seen ==> label@ == item@.take(it.index() as int) && value@.len() == 0
                && forall|j: int| 0 <= j < it.index() ==> item@[j] != ':',
            seen ==> 0 <= at < it.index() && item@[at] == ':' && label@ == item@.take(at)
                && value@ == item@.subrange(at + 1, it.index() as int)
                && forall|j: int| 0 <= j < at ==> item@[j] != ':',
    {
        if seen {
            value.push(c);
        } else if c == ':' {
            seen = true;
            proof {
                at = it.index() as int;
            }
        } else {
            label.push(c);
        }
    }
    if seen {
        proof {
            lemma_find_unique(item@, ':', at);
            assert(item@.subrange(at + 1, item@.len() as int) == item@.skip(at + 1));
        }
        Some((label, value))
    } else {
        proof {
            lemma_find_unique(item@, ':', item@.len() as int);
        }
        None
    }
}

/// Parses one line into a record.
///
/// The line's content is split at tabs into items and each item at its first
/// colon. An item without a colon makes the line an error that names the
/// first such item. Of two items with one label the later gives the value.
pub fn parse_record(line: &str) -> (r: Result<Record, ParseError>)
    ensures
        match r {
            Ok(rec) => parsed(line@) == Ok::<Map<Seq<char>, Seq<char>>, Seq<char>>(rec@)
                && rec.label_order() == label_order_of(line@) && rec.label_order().len() > 0,
            Err(e) => parsed(line@) == Err::<Map<Seq<char>, Seq<char>>, Seq<char>>(e.msg@),
        },
{
    let chars = chars_of(line);
    let n = chars.len();
    let end = if n > 0 && chars[n - 1] == '\n' {
        n - 1
    } else {
        n
    };
    assert(chars@.take(end as int) == content(line@));
    let items = split_on(&chars, end, '\t');
    let ghost texts = views(items@);
    assert(texts == items_of(line@));
    let mut rec = Record::new();
    let mut i: usize = 0;
    proof {
        assert(texts.take(0) == Seq::<Seq<char>>::empty());
        assert(labels_of(texts.take(0)) == Seq::<Seq<char>>::empty());
    }
    while i < items.len()
        invariant
            i <= items@.len(),
            texts == views(items@),
            texts == items_of(line@),
            forall|j: int| 0 <= j < i ==> has_colon(texts[j]),
            rec@ == fields_of(texts.take(i as int)),
            rec.label_order() == first_seen(labels_of(texts.take(i as int))),
            i > 0 ==> rec.label_order().len() > 0,
        decreases items@.len() - i,
    {
        let ghost before = texts.take(i as int);
        let ghost after = texts.take(i + 1);
        proof {
            assert(after.drop_last() == before);
            assert(after.last() == texts[i as int]);
            assert(labels_of(after).drop_last() == labels_of(before));
            assert(labels_of(after).last() == label_of(texts[i as int]));
        }
        match split_field(items[i].as_str()) {
            Some((label, value)) => {
                rec = rec.put(label, value);
            },
            None => {
                let mut msg = String::from_str("invalid ltsv item: ");
                msg.append(items[i].as_str());
                proof {
                    assert(texts[i as int] == items@[i as int]@);
                    assert(lacks_colon()(texts[i as int]));
                    assert forall|j: int| 0 <= j < i implies !lacks_colon()(texts[j]) by {
                        assert(has_colon(texts[j]));
                    }
                    lemma_first_where_unique(texts, lacks_colon(), i as int);
                    assert(msg@ == invalid_item(texts[i as int]));
                }
                return Err(ParseError { msg });
            },
        }
        i += 1;
    }
    proof {
        assert(texts.take(i as int) == texts);
        lemma_first_where_unique(texts, lacks_colon(), texts.len() as int);
        crate::text::lemma_split_nonempty(content(line@), '\t');
    }
    Ok(rec)
}

/// Reads one line of a source: `None` for a blank line, else its record.
pub fn read_record(line: &str) -> (r: Result<Option<Record>, ParseError>)
    ensures
        match r {
            Ok(None) => blank(line@),
            Ok(Some(rec)) => !blank(line@) && parsed(line@) == Ok::<
                Map<Seq<char>, Seq<char>>,
                Seq<char>,
            >(rec@) && rec.label_order() == label_order_of(line@),
            Err(e) => !blank(line@) && parsed(line@) == Err::<
                Map<Seq<char>, Seq<char>>,
                Seq<char>,
            >(e.msg@),
        },
{
    if is_blank(line) {
        Ok(None)
    } else {
        match parse_record(line) {
            Ok(rec) => Ok(Some(rec)),
            Err(e) => Err(e),
        }
    }
}

/// The record of the first line that is not blank.
///
/// Lines before it are skipped and lines after it are not looked at. A source
/// without such a line, be it empty or all blank, is a parse error with the
/// message `no record found`; a first line that does not parse gives its own
/// error.
pub fn parse_head(lines: &Vec<String>) -> (r: Result<Record, Error>)
    ensures
        match r {
            Ok(rec) => head_of(views(lines@)) == Ok::<Map<Seq<char>, Seq<char>>, Seq<char>>(rec@)
                && rec.label_order() == head_labels(views(lines@)),
            Err(Error::Parse(e)) => head_of(views(lines@)) == Err::<
                Map<Seq<char>, Seq<char>>,
                Seq<char>,
            >(e.msg@),
            Err(Error::Io(_)) => false,
        },
{
    let ghost texts = views(lines@);
    let mut i: usize = 0;
    while i < lines.len()
        invariant
            i <= lines@.len(),
            texts == views(lines@),
            forall|j: int| 0 <= j < i ==> !not_blank()(texts[j]),
        decreases lines@.len() - i,
    {
        match read_record(lines[i].as_str()) {
            Ok(None) => {},
            Ok(Some(rec)) => {
                proof {
                    assert(not_blank()(texts[i as int]));
                    lemma_first_where_unique(texts, not_blank(), i as int);
                }
                return Ok(rec);
            },
            Err(e) => {
                proof {
                    assert(not_blank()(texts[i as int]));
                    lemma_first_where_unique(texts, not_blank(), i as int);
                }
                return Err(Error::Parse(e));
            },
        }
        i += 1;
    }
    proof {
        lemma_first_where_unique(texts, not_blank(), texts.len() as int);
    }
    Err(Error::Parse(ParseError { msg: String::from_str("no record found") }))
}

/// The records of all lines that are not blank, in order. The first line that
/// does not parse ends the reading with its error.
pub fn each_record(lines: &Vec<String>) -> (r: Result<Vec<Record>, Error>)
    ensures
        match r {
            Ok(records) => {
                &&& records_of(views(lines@)) == Ok::<Seq<Map<Seq<char>, Seq<char>>>, Seq<char>>(
                    maps(records@),
                )
                &&& records@.len() == record_lines(views(lines@)).len()
                &&& forall|i: int|
                    0 <= i < records@.len() ==> (#[trigger] records@[i]).label_order()
                        == label_order_of(record_lines(views(lines@))[i])
            },
            Err(Error::Parse(e)) => records_of(views(lines@)) == Err::<
                Seq<Map<Seq<char>, Seq<char>>>,
                Seq<char>,
            >(e.msg@),
            Err(Error::Io(_)) => false,
        },
{
    let ghost texts = views(lines@);
    let mut records: Vec<Record> = Vec::new();
    let mut i: usize = 0;
    proof {
        assert(texts.take(0) == Seq::<Seq<char>>::empty());
        assert(maps(records@) == Seq::<Map<Seq<char>, Seq<char>>>::empty());
    }
    while i < lines.len()
        invariant
            i <= lines@.len(),
            texts == views(lines@),
            records_of(texts.take(i as int)) == Ok::<Seq<Map<Seq<char>, Seq<char>>>, Seq<char>>(
                maps(records@),
            ),
            records@.len() == record_lines(texts.take(i as int)).len(),
            forall|j: int|
                0 <= j < records@.len() ==> (#[trigger] records@[j]).label_order()
                    == label_order_of(record_lines(texts.take(i as int))[j]),
        decreases lines@.len() - i,
    {
        proof {
            assert(texts.take(i + 1).drop_last() == texts.take(i as int));
            assert(texts.take(i + 1).last() == lines@[i as int]@);
        }
        match read_record(lines[i].as_str()) {
            Ok(None) => {},
            Ok(Some(rec)) => {
                proof {
                    assert(maps(records@.push(rec)) == maps(records@).push(rec@));
                }
                records.push(rec);
            },
            Err(e) => {
                proof {
                    lemma_records_fail(texts, i as int);
                }
                return Err(Error::Parse(e));
            },
        }
        i += 1;
    }
    assert(texts.take(i as int) == texts);
    Ok(records)
}

/// Once a prefix of the lines fails, the whole fails in the same way.
pub proof fn lemma_records_fail(lines: Seq<Seq<char>>, i: int)
    requires
        0 <= i < lines.len(),
        records_of(lines.take(i + 1)) is Err,
    ensures
        records_of(lines) == records_of(lines.take(i + 1)),
    decreases lines.len() - i,
{
    if i + 1 < lines.len() {
        assert(lines.take(i + 2).drop_last() == lines.take(i + 1));
        lemma_records_fail(lines, i + 1);
    } else {
        assert(lines.take(i + 1) == lines);
    }
}

} // verus!
