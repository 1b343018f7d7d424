//! Ordering the records of a source by the value that they give a label.

use vstd::prelude::*;
use vstd::string::*;
use vstd::seq_lib::to_multiset_build;
use crate::error::Error;
use crate::ltsv::{lemma_records_fail, parsed, read_record, record_lines, records_of};
use crate::text::{
    bytes, lemma_lex_le_refl, lemma_lex_le_total, lemma_lex_le_trans, lex_le, str_le, views,
};

verus! {

/// The bytes of each key, in order.
pub open spec fn key_bytes(keys: Seq<String>) -> Seq<Seq<u8>> {
    Seq::new(keys.len(), |i: int| bytes(keys[i]@))
}

/// Every element of `order` is a position below `n`.
pub open spec fn in_range(order: Seq<usize>, n: int) -> bool {
    forall|t: int| 0 <= t < order.len() ==> 0 <= #[trigger] order[t] < n
}

/// The keys at the positions in `order` never fall from one to the next.
pub open spec fn ascending(order: Seq<usize>, keys: Seq<Seq<u8>>) -> bool {
    forall|a: int, b: int|
        0 <= a < b < order.len() ==> lex_le(
            keys[#[trigger] order[a] as int],
            keys[#[trigger] order[b] as int],
        )
}

/// The positions in `order` whose key is `k`, in the order in which they
/// stand there.
pub open spec fn with_key(order: Seq<usize>, keys: Seq<Seq<u8>>, k: Seq<u8>) -> Seq<usize>
    decreases order.len(),
{
    if order.len() == 0 {
        Seq::empty()
    } else if keys[order.last() as int] == k {
        with_key(order.drop_last(), keys, k).push(order.last())
    } else {
        with_key(order.drop_last(), keys, k)
    }
}

/// The positions from `lo` up to `hi`, `hi` left out.
pub open spec fn span(lo: int, hi: int) -> Seq<usize> {
    Seq::new((hi - lo) as nat, |t: int| (lo + t) as usize)
}

/// `order` lists the positions below `keys.len()` by ascending key, and
/// positions with one key in ascending order.
pub open spec fn stably_ordered(order: Seq<usize>, keys: Seq<Seq<u8>>) -> bool {
    &&& order.len() == keys.len()
    &&& in_range(order, keys.len() as int)
    &&& ascending(order, keys)
    &&& forall|k: Seq<u8>| #[trigger] with_key(order, keys, k) == with_key(span(0, keys.len() as int), keys, k)
}

/// The positions of one key in two runs put together are those in the
/// first run, then those in the second.
pub proof fn lemma_with_key_add(a: Seq<usize>, b: Seq<usize>, keys: Seq<Seq<u8>>, k: Seq<u8>)
    ensures
        with_key(a + b, keys, k) == with_key(a, keys, k) + with_key(b, keys, k),
    decreases b.len(),
{
    if b.len() == 0 {
        assert(a + b == a);
    } else {
        assert((a + b).drop_last() == a + b.drop_last());
        lemma_with_key_add(a, b.drop_last(), keys, k);
    }
}

/// A run in which no position has the key `k` gives none for it.
proof fn lemma_with_key_none(a: Seq<usize>, keys: Seq<Seq<u8>>, k: Seq<u8>)
    requires
        forall|t: int| 0 <= t < a.len() ==> keys[#[trigger] a[t] as int] != k,
    ensures
        with_key(a, keys, k) == Seq::<usize>::empty(),
    decreases a.len(),
{
    if a.len() > 0 {
        assert(a.last() == a[a.len() - 1]);
        lemma_with_key_none(a.drop_last(), keys, k);
    }
}

/// What holds between the part merged so far and the two parts it is
/// merged from, `i` and `j` elements of which are taken.
spec fn merging(
    out: Seq<usize>,
    left: Seq<usize>,
    right: Seq<usize>,
    i: int,
    j: int,
    keys: Seq<Seq<u8>>,
) -> bool {
    &&& 0 <= i <= left.len()
    &&& 0 <= j <= right.len()
    &&& out.len() == i + j
    &&& in_range(out, keys.len() as int)
    &&& ascending(out, keys)
    &&& forall|t: int|
        0 <= t < out.len() && i < left.len() ==> lex_le(
            keys[#[trigger] out[t] as int],
            keys[left[i] as int],
        )
    &&& forall|t: int|
        0 <= t < out.len() && j < right.len() ==> lex_le(
            keys[#[trigger] out[t] as int],
            keys[right[j] as int],
        )
    &&& forall|t: int|
        0 <= t < j && i < left.len() ==> !lex_le(keys[left[i] as int], keys[#[trigger] right[t] as int])
    &&& forall|k: Seq<u8>| #[trigger]
        with_key(out, keys, k) == with_key(left.take(i), keys, k) + with_key(
            right.take(j),
            keys,
            k,
        )
}

/// Taking the next element of `left` keeps the merge in order, where that
/// element does not come after the next of `right`.
proof fn lemma_take_left(
    out: Seq<usize>,
    left: Seq<usize>,
    right: Seq<usize>,
    i: int,
    j: int,
    keys: Seq<Seq<u8>>,
)
    requires
        merging(out, left, right, i, j, keys),
        in_range(left, keys.len() as int),
        in_range(right, keys.len() as int),
        ascending(left, keys),
        ascending(right, keys),
        i < left.len(),
        j < right.len() ==> lex_le(keys[left[i] as int], keys[right[j] as int]),
    ensures
        merging(out.push(left[i]), left, right, i + 1, j, keys),
{
    let x = left[i];
    let next = out.push(x);
    assert forall|a: int, b: int| 0 <= a < b < next.len() implies lex_le(
        keys[#[trigger] next[a] as int],
        keys[#[trigger] next[b] as int],
    ) by {
        if b < out.len() {
            assert(next[a] == out[a] && next[b] == out[b]);
        } else {
            assert(next[a] == out[a]);
        }
    }
    assert forall|t: int| 0 <= t < next.len() && i + 1 < left.len() implies lex_le(
        keys[#[trigger] next[t] as int],
        keys[left[i + 1] as int],
    ) by {
        assert(lex_le(keys[left[i] as int], keys[left[i + 1] as int]));
        if t < out.len() {
            assert(next[t] == out[t]);
            lemma_lex_le_trans(keys[out[t] as int], keys[x as int], keys[left[i + 1] as int]);
        }
    }
    assert forall|t: int| 0 <= t < next.len() && j < right.len() implies lex_le(
        keys[#[trigger] next[t] as int],
        keys[right[j] as int],
    ) by {
        if t < out.len() {
            assert(next[t] == out[t]);
        }
    }
    assert forall|t: int| 0 <= t < j && i + 1 < left.len() implies !lex_le(
        keys[left[i + 1] as int],
        keys[#[trigger] right[t] as int],
    ) by {
        assert(lex_le(keys[left[i] as int], keys[left[i + 1] as int]));
        if lex_le(keys[left[i + 1] as int], keys[right[t] as int]) {
            lemma_lex_le_trans(keys[x as int], keys[left[i + 1] as int], keys[right[t] as int]);
        }
    }
    assert forall|k: Seq<u8>| #[trigger]
        with_key(next, keys, k) == with_key(left.take(i + 1), keys, k) + with_key(
            right.take(j),
            keys,
            k,
        ) by {
        assert(next.drop_last() == out);
        assert(left.take(i + 1).drop_last() == left.take(i));
        assert(left.take(i + 1).last() == x);
        let mine = with_key(left.take(i), keys, k);
        let theirs = with_key(right.take(j), keys, k);
        assert(with_key(out, keys, k) == mine + theirs);
        if keys[x as int] == k {
            lemma_lex_le_refl(k);
            assert forall|t: int| 0 <= t < right.take(j).len() implies keys[#[trigger] right.take(
                j,
            )[t] as int] != k by {
                assert(right.take(j)[t] == right[t]);
            }
            lemma_with_key_none(right.take(j), keys, k);
            assert((mine + theirs).push(x) == mine.push(x) + theirs);
        }
    }
    assert(in_range(next, keys.len() as int)) by {
        assert forall|t: int| 0 <= t < next.len() implies 0 <= #[trigger] next[t] < keys.len() by {
            if t < out.len() {
                assert(next[t] == out[t]);
            }
        }
    }
}

/// Taking the next element of `right` keeps the merge in order, where that
/// element comes strictly before the next of `left`.
proof fn lemma_take_right(
    out: Seq<usize>,
    left: Seq<usize>,
    right: Seq<usize>,
    i: int,
    j: int,
    keys: Seq<Seq<u8>>,
)
    requires
        merging(out, left, right, i, j, keys),
        in_range(left, keys.len() as int),
        in_range(right, keys.len() as int),
        ascending(left, keys),
        ascending(right, keys),
        j < right.len(),
        i < left.len() ==> !lex_le(keys[left[i] as int], keys[right[j] as int]),
    ensures
        merging(out.push(right[j]), left, right, i, j + 1, keys),
{
    let y = right[j];
    let next = out.push(y);
    assert forall|a: int, b: int| 0 <= a < b < next.len() implies lex_le(
        keys[#[trigger] next[a] as int],
        keys[#[trigger] next[b] as int],
    ) by {
        if b < out.len() {
            assert(next[a] == out[a] && next[b] == out[b]);
        } else {
            assert(next[a] == out[a]);
        }
    }
    assert forall|t: int| 0 <= t < next.len() && i < left.len() implies lex_le(
        keys[#[trigger] next[t] as int],
        keys[left[i] as int],
    ) by {
        if t < out.len() {
            assert(next[t] == out[t]);
        } else {
            lemma_lex_le_total(keys[left[i] as int], keys[y as int]);
        }
    }
    assert forall|t: int| 0 <= t < next.len() && j + 1 < right.len() implies lex_le(
        keys[#[trigger] next[t] as int],
        keys[right[j + 1] as int],
    ) by {
        assert(lex_le(keys[right[j] as int], keys[right[j + 1] as int]));
        if t < out.len() {
            assert(next[t] == out[t]);
            lemma_lex_le_trans(keys[out[t] as int], keys[y as int], keys[right[j + 1] as int]);
        }
    }
    assert forall|k: Seq<u8>| #[trigger]
        with_key(next, keys, k) == with_key(left.take(i), keys, k) + with_key(
            right.take(j + 1),
            keys,
            k,
        ) by {
        assert(next.drop_last() == out);
        assert(right.take(j + 1).drop_last() == right.take(j));
        assert(right.take(j + 1).last() == y);
        let mine = with_key(left.take(i), keys, k);
        let theirs = with_key(right.take(j), keys, k);
        assert(with_key(out, keys, k) == mine + theirs);
        if keys[y as int] == k {
            assert((mine + theirs).push(y) == mine + theirs.push(y));
        }
    }
    assert(in_range(next, keys.len() as int)) by {
        assert forall|t: int| 0 <= t < next.len() implies 0 <= #[trigger] next[t] < keys.len() by {
            if t < out.len() {
                assert(next[t] == out[t]);
            }
        }
    }
}

/// Merges two ascending runs into one. Where keys are equal the elements of
/// `left` come before those of `right`.
fn merge(keys: &Vec<String>, left: &Vec<usize>, right: &Vec<usize>) -> (out: Vec<usize>)
    requires
        left@.len() + right@.len() <= usize::MAX,
        in_range(left@, keys@.len() as int),
        in_range(right@, keys@.len() as int),
        ascending(left@, key_bytes(keys@)),
        ascending(right@, key_bytes(keys@)),
    ensures
        out@.len() == left@.len() + right@.len(),
        in_range(out@, keys@.len() as int),
        ascending(out@, key_bytes(keys@)),
        forall|k: Seq<u8>| #[trigger]
            with_key(out@, key_bytes(keys@), k) == with_key(left@, key_bytes(keys@), k) + with_key(
                right@,
                key_bytes(keys@),
                k,
            ),
{
    let ghost kb = key_bytes(keys@);
    let mut out: Vec<usize> = Vec::new();
    let mut i: usize = 0;
    let mut j: usize = 0;
    proof {
        assert(left@.take(0) == Seq::<usize>::empty());
        assert(right@.take(0) == Seq::<usize>::empty());
        assert forall|k: Seq<u8>| #[trigger]
            with_key(out@, kb, k) == with_key(left@.take(0), kb, k) + with_key(
                right@.take(0),
                kb,
                k,
            ) by {}
    }
    while i < left.len() || j < right.len()
        invariant
            kb == key_bytes(keys@),
            left@.len() + right@.len() <= usize::MAX,
            in_range(left@, keys@.len() as int),
            in_range(right@, keys@.len() as int),
            ascending(left@, kb),
            ascending(right@, kb),
            i <= left@.len(),
            j <= right@.len(),
            merging(out@, left@, right@, i as int, j as int, kb),
        decreases left@.len() - i + right@.len() - j,
    {
        let from_left = if j >= right.len() {
            true
        } else if i >= left.len() {
            false
        } else {
            str_le(keys[left[i]].as_str(), keys[right[j]].as_str())
        };
        if from_left {
            proof {
                lemma_take_left(out@, left@, right@, i as int, j as int, kb);
            }
            out.push(left[i]);
            i += 1;
        } else {
            proof {
                lemma_take_right(out@, left@, right@, i as int, j as int, kb);
            }
            out.push(right[j]);
            j += 1;
        }
    }
    proof {
        assert(left@.take(i as int) == left@);
        assert(right@.take(j as int) == right@);
    }
    out
}

/// Orders the positions from `lo` up to `hi` by their keys.
fn sort_span(keys: &Vec<String>, lo: usize, hi: usize) -> (out: Vec<usize>)
    requires
        lo <= hi <= keys@.len(),
    ensures
        out@.len() == hi - lo,
        in_range(out@, keys@.len() as int),
        ascending(out@, key_bytes(keys@)),
        forall|k: Seq<u8>| #[trigger]
            with_key(out@, key_bytes(keys@), k) == with_key(
                span(lo as int, hi as int),
                key_bytes(keys@),
                k,
            ),
    decreases hi - lo,
{
    let ghost kb = key_bytes(keys@);
    if hi - lo == 0 {
        let out: Vec<usize> = Vec::new();
        assert(out@ == span(lo as int, hi as int));
        out
    } else if hi - lo == 1 {
        let mut out: Vec<usize> = Vec::new();
        out.push(lo);
        assert(out@ == span(lo as int, hi as int));
        out
    } else {
        let mid = lo + (hi - lo) / 2;
        let left = sort_span(keys, lo, mid);
        let right = sort_span(keys, mid, hi);
        let out = merge(keys, &left, &right);
        proof {
            assert(span(lo as int, hi as int) == span(lo as int, mid as int) + span(
                mid as int,
                hi as int,
            ));
            assert forall|k: Seq<u8>| #[trigger]
                with_key(out@, kb, k) == with_key(span(lo as int, hi as int), kb, k) by {
                lemma_with_key_add(span(lo as int, mid as int), span(mid as int, hi as int), kb, k);
                assert(with_key(left@, kb, k) == with_key(span(lo as int, mid as int), kb, k));
                assert(with_key(right@, kb, k) == with_key(span(mid as int, hi as int), kb, k));
            }
        }
        out
    }
}

/// The positions of `keys` in the order of a stable sort: by ascending key,
/// byte by byte, and positions with one key in ascending order.
pub fn stable_order(keys: &Vec<String>) -> (order: Vec<usize>)
    ensures
        stably_ordered(order@, key_bytes(keys@)),
{
    sort_span(keys, 0, keys.len())
}

/// The text by which a record is ordered: its value for `label`, or the
/// empty text when it does not hold the label.
pub open spec fn sort_key(m: Map<Seq<char>, Seq<char>>, label: Seq<char>) -> Seq<char> {
    if m.contains_key(label) {
        m[label]
    } else {
        Seq::empty()
    }
}

/// The bytes by which a line is ordered.
pub open spec fn line_key(line: Seq<char>, label: Seq<char>) -> Seq<u8> {
    bytes(sort_key(parsed(line)->Ok_0, label))
}

/// The keys of the lines never fall from one line to the next.
pub open spec fn sorted_lines(lines: Seq<Seq<char>>, label: Seq<char>) -> bool {
    forall|a: int, b: int|
        0 <= a < b < lines.len() ==> lex_le(
            line_key(#[trigger] lines[a], label),
            line_key(#[trigger] lines[b], label),
        )
}

/// The lines whose key is `k`, in the order in which they stand in `lines`.
pub open spec fn lines_with_key(lines: Seq<Seq<char>>, label: Seq<char>, k: Seq<u8>) -> Seq<
    Seq<char>,
>
    decreases lines.len(),
{
    if lines.len() == 0 {
        Seq::empty()
    } else if line_key(lines.last(), label) == k {
        lines_with_key(lines.drop_last(), label, k).push(lines.last())
    } else {
        lines_with_key(lines.drop_last(), label, k)
    }
}

/// `out` is `input` sorted by the key of each line, and stably so: it holds
/// the same lines as often, its keys ascend, and the lines of any one key
/// stand in the order that they have in `input`.
pub open spec fn stable_sort_of(out: Seq<Seq<char>>, input: Seq<Seq<char>>, label: Seq<char>) -> bool {
    &&& out.len() == input.len()
    &&& out.to_multiset() == input.to_multiset()
    &&& sorted_lines(out, label)
    &&& forall|k: Seq<u8>| #[trigger]
        lines_with_key(out, label, k) == lines_with_key(input, label, k)
}

/// The lines of `input` at the positions in `order`.
pub open spec fn arranged(order: Seq<usize>, input: Seq<Seq<char>>) -> Seq<Seq<char>> {
    Seq::new(order.len(), |t: int| input[order[t] as int])
}

/// The keys of the lines, in order.
pub open spec fn line_keys(lines: Seq<Seq<char>>, label: Seq<char>) -> Seq<Seq<u8>> {
    Seq::new(lines.len(), |j: int| line_key(lines[j], label))
}

/// The arranged lines of one key are the lines at the positions of that key.
proof fn lemma_arranged_with_key(
    order: Seq<usize>,
    input: Seq<Seq<char>>,
    label: Seq<char>,
    k: Seq<u8>,
)
    requires
        in_range(order, input.len() as int),
    ensures
        lines_with_key(arranged(order, input), label, k) == arranged(
            with_key(order, line_keys(input, label), k),
            input,
        ),
    decreases order.len(),
{
    let keys = line_keys(input, label);
    if order.len() == 0 {
        assert(arranged(with_key(order, keys, k), input) == Seq::<Seq<char>>::empty());
    } else {
        let rest = order.drop_last();
        lemma_arranged_with_key(rest, input, label, k);
        assert(arranged(order, input).drop_last() == arranged(rest, input));
        assert(arranged(order, input).last() == input[order.last() as int]);
        assert(order.last() == order[order.len() - 1]);
        let found = with_key(rest, keys, k);
        if keys[order.last() as int] == k {
            assert(arranged(found.push(order.last()), input) == arranged(found, input).push(
                input[order.last() as int],
            ));
        }
    }
}

/// The lines at the positions of one key, taken in ascending order, are the
/// lines of that key as they stand in the input.
proof fn lemma_span_with_key(input: Seq<Seq<char>>, label: Seq<char>, k: Seq<u8>, n: int)
    requires
        0 <= n <= input.len() <= usize::MAX,
    ensures
        arranged(with_key(span(0, n), line_keys(input, label), k), input) == lines_with_key(
            input.take(n),
            label,
            k,
        ),
    decreases n,
{
    let keys = line_keys(input, label);
    if n == 0 {
        assert(arranged(with_key(span(0, n), keys, k), input) == Seq::<Seq<char>>::empty());
    } else {
        lemma_span_with_key(input, label, k, n - 1);
        assert(span(0, n).drop_last() == span(0, n - 1));
        assert(span(0, n).last() == (n - 1) as usize);
        assert(input.take(n).drop_last() == input.take(n - 1));
        assert(input.take(n).last() == input[n - 1]);
        let found = with_key(span(0, n - 1), keys, k);
        if keys[n - 1] == k {
            assert(arranged(found.push((n - 1) as usize), input) == arranged(found, input).push(
                input[n - 1],
            ));
        }
    }
}

/// A line occurs among all lines as often as among those of its own key.
proof fn lemma_count_by_key(lines: Seq<Seq<char>>, label: Seq<char>, x: Seq<char>)
    ensures
        lines.to_multiset().count(x) == lines_with_key(
            lines,
            label,
            line_key(x, label),
        ).to_multiset().count(x),
    decreases lines.len(),
{
    let k = line_key(x, label);
    if lines.len() == 0 {
        assert(lines_with_key(lines, label, k) == lines);
    } else {
        let rest = lines.drop_last();
        lemma_count_by_key(rest, label, x);
        assert(lines == rest.push(lines.last()));
        to_multiset_build(rest, lines.last());
        if line_key(lines.last(), label) == k {
            to_multiset_build(lines_with_key(rest, label, k), lines.last());
        }
    }
}

/// Lines that agree key by key are the same lines, as often.
pub proof fn lemma_same_lines(a: Seq<Seq<char>>, b: Seq<Seq<char>>, label: Seq<char>)
    requires
        forall|k: Seq<u8>| #[trigger] lines_with_key(a, label, k) == lines_with_key(b, label, k),
    ensures
        a.to_multiset() == b.to_multiset(),
        a.len() == b.len(),
{
    assert forall|x: Seq<char>| a.to_multiset().count(x) == b.to_multiset().count(x) by {
        lemma_count_by_key(a, label, x);
        lemma_count_by_key(b, label, x);
        assert(lines_with_key(a, label, line_key(x, label)) == lines_with_key(
            b,
            label,
            line_key(x, label),
        ));
    }
    assert(a.to_multiset() =~= b.to_multiset());
    a.to_multiset_ensures();
    b.to_multiset_ensures();
}

/// Lines arranged in a stable order of their keys are stably sorted.
proof fn lemma_arranged_sorted(order: Seq<usize>, input: Seq<Seq<char>>, label: Seq<char>)
    requires
        stably_ordered(order, line_keys(input, label)),
        input.len() <= usize::MAX,
    ensures
        stable_sort_of(arranged(order, input), input, label),
{
    let keys = line_keys(input, label);
    let out = arranged(order, input);
    assert forall|k: Seq<u8>| #[trigger]
        lines_with_key(out, label, k) == lines_with_key(input, label, k) by {
        lemma_arranged_with_key(order, input, label, k);
        lemma_span_with_key(input, label, k, input.len() as int);
        assert(input.take(input.len() as int) == input);
        assert(with_key(order, keys, k) == with_key(span(0, keys.len() as int), keys, k));
    }
    lemma_same_lines(out, input, label);
    assert forall|a: int, b: int| 0 <= a < b < out.len() implies lex_le(
        line_key(#[trigger] out[a], label),
        line_key(#[trigger] out[b], label),
    ) by {
        assert(lex_le(keys[order[a] as int], keys[order[b] as int]));
    }
}

/// The lines of `lines` that hold a record, ordered by the value that the
/// record gives `label`.
///
/// A record without the label is ordered as if its value were empty. Values
/// are compared byte by byte, ascending. Lines with equal values keep the
/// order in which they came, and every line is given back as it came. The
/// first line that does not parse ends the work with its error.
pub fn order_by(lines: &Vec<String>, label: &str) -> (r: Result<Vec<String>, Error>)
    ensures
        match r {
            Ok(out) => records_of(views(lines@)) is Ok && stable_sort_of(
                views(out@),
                record_lines(views(lines@)),
                label@,
            ),
            Err(Error::Parse(e)) => records_of(views(lines@)) == Err::<
                Seq<Map<Seq<char>, Seq<char>>>,
                Seq<char>,
            >(e.msg@),
            Err(Error::Io(_)) => false,
        },
{
    let ghost texts = views(lines@);
    let mut keys: Vec<String> = Vec::new();
    let mut from: Vec<usize> = Vec::new();
    let mut i: usize = 0;
    proof {
        assert(texts.take(0) == Seq::<Seq<char>>::empty());
    }
    while i < lines.len()
        invariant
            i <= lines@.len(),
            texts == views(lines@),
            records_of(texts.take(i as int)) is Ok,
            keys@.len() == from@.len(),
            keys@.len() == record_lines(texts.take(i as int)).len(),
            forall|j: int|
                0 <= j < from@.len() ==> #[trigger] from@[j] < i && texts[from@[j] as int]
                    == record_lines(texts.take(i as int))[j],
            forall|j: int|
                0 <= j < keys@.len() ==> bytes(#[trigger] keys@[j]@) == line_key(
                    record_lines(texts.take(i as int))[j],
                    label@,
                ),
        decreases lines@.len() - i,
    {
        proof {
            assert(texts.take(i + 1).drop_last() == texts.take(i as int));
            assert(texts.take(i + 1).last() == lines@[i as int]@);
        }
        match read_record(lines[i].as_str()) {
            Ok(None) => {},
            Ok(Some(rec)) => {
                let key = match rec.get(label) {
                    Some(value) => value.clone(),
                    None => String::new(),
                };
                keys.push(key);
                from.push(i);
            },
            Err(e) => {
                proof {
                    lemma_records_fail(texts, i as int);
                }
                return Err(Error::Parse(e));
            },
        }
        i += 1;
    }
    assert(texts.take(i as int) == texts);
    let ghost input = record_lines(texts);
    assert(key_bytes(keys@) == line_keys(input, label@));
    let order = stable_order(&keys);
    let mut out: Vec<String> = Vec::new();
    let mut t: usize = 0;
    while t < order.len()
        invariant
            t <= order@.len(),
            texts == views(lines@),
            input == record_lines(texts),
            in_range(order@, from@.len() as int),
            from@.len() == input.len(),
            forall|j: int|
                0 <= j < from@.len() ==> #[trigger] from@[j] < lines@.len() && texts[from@[j] as int]
                    == input[j],
            views(out@) == arranged(order@, input).take(t as int),
        decreases order@.len() - t,
    {
        let line = lines[from[order[t]]].clone();
        proof {
            assert(views(out@.push(line)) == views(out@).push(line@));
            assert(arranged(order@, input).take(t + 1) == arranged(order@, input).take(
                t as int,
            ).push(line@));
        }
        out.push(line);
        t += 1;
    }
    proof {
        assert(arranged(order@, input).take(t as int) == arranged(order@, input));
        lemma_arranged_sorted(order@, input, label@);
    }
    Ok(out)
}

} // verus!
