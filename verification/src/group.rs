//! Counting the records of a source by the value that they give a label.

use vstd::prelude::*;
use vstd::string::*;
use vstd::hash_map::StringHashMap;
use crate::error::Error;
use crate::ltsv::{blank, parsed, read_record, records_of};
use crate::record::{first_seen, Record};
use crate::text::views;

verus! {

/// The sum of the numbers in `counts`.
pub open spec fn sum(counts: Seq<usize>) -> nat
    decreases counts.len(),
{
    if counts.len() == 0 {
        0
    } else {
        sum(counts.drop_last()) + counts.last() as nat
    }
}

/// No count is greater than the sum of all.
proof fn lemma_sum_bounds(counts: Seq<usize>, i: int)
    requires
        0 <= i < counts.len(),
    ensures
        counts[i] <= sum(counts),
    decreases counts.len(),
{
    if i < counts.len() - 1 {
        lemma_sum_bounds(counts.drop_last(), i);
    }
}

/// Changing one count changes the sum by as much.
proof fn lemma_sum_update(counts: Seq<usize>, i: int, c: usize)
    requires
        0 <= i < counts.len(),
    ensures
        sum(counts.update(i, c)) == sum(counts) - counts[i] + c,
    decreases counts.len(),
{
    if i < counts.len() - 1 {
        lemma_sum_update(counts.drop_last(), i, c);
        assert(counts.update(i, c).drop_last() == counts.drop_last().update(i, c));
    } else {
        assert(counts.update(i, c).drop_last() == counts.drop_last());
    }
}

/// How often `m` has counted `v`: nothing for a value that it does not hold.
pub open spec fn seen(m: Map<Seq<char>, nat>, v: Seq<char>) -> nat {
    if m.contains_key(v) {
        m[v]
    } else {
        0
    }
}

/// The sum of the counts that `m` holds for `keys`.
pub open spec fn total_of(keys: Seq<Seq<char>>, m: Map<Seq<char>, nat>) -> nat
    decreases keys.len(),
{
    if keys.len() == 0 {
        0
    } else {
        total_of(keys.drop_last(), m) + m[keys.last()]
    }
}

/// Distinct strings, each with the place at which it was added.
struct Slots {
    keys: Vec<String>,
    index: StringHashMap<usize>,
}

impl Slots {
    /// The index gives each key its place, and holds nothing else.
    #[verifier::type_invariant]
    spec fn wf(&self) -> bool {
        &&& forall|i: int|
            0 <= i < self.keys@.len() ==> self.index@.contains_key(#[trigger] self.keys@[i]@)
                && self.index@[self.keys@[i]@] == i
        &&& forall|k: Seq<char>| #[trigger]
            self.index@.contains_key(k) ==> self.index@[k] < self.keys@.len()
                && self.keys@[self.index@[k] as int]@ == k
    }

    /// The keys in the order in which they were added.
    spec fn order(&self) -> Seq<Seq<char>> {
        views(self.keys@)
    }

    /// Whether `k` was added.
    spec fn holds(&self, k: Seq<char>) -> bool {
        self.index@.contains_key(k)
    }

    /// The place at which `k` was added.
    spec fn place(&self, k: Seq<char>) -> int {
        self.index@[k] as int
    }

    /// The keys are distinct, and each stands at its place.
    proof fn lemma_order(&self)
        requires
            self.wf(),
        ensures
            self.order().no_duplicates(),
            forall|k: Seq<char>| self.order().contains(k) <==> self.holds(k),
            forall|k: Seq<char>| self.holds(k) ==> 0 <= self.place(k) < self.order().len()
                && self.order()[self.place(k)] == k,
            forall|i: int| 0 <= i < self.order().len() ==> self.holds(self.order()[i])
                && self.place(self.order()[i]) == i,
    {
        let order = self.order();
        assert forall|i: int| 0 <= i < order.len() implies self.holds(order[i]) && self.place(
            order[i],
        ) == i by {
            assert(order[i] == self.keys@[i]@);
        }
        assert forall|k: Seq<char>| self.holds(k) implies order.contains(k) by {
            assert(order[self.place(k)] == k);
        }
    }

    /// No keys.
    fn new() -> (r: Slots)
        ensures
            r.order() == Seq::<Seq<char>>::empty(),
    {
        let r = Slots { keys: Vec::new(), index: StringHashMap::new() };
        assert(r.order() =~= Seq::<Seq<char>>::empty());
        r
    }

    /// How many keys there are.
    fn len(&self) -> (n: usize)
        ensures
            n == self.order().len(),
    {
        self.keys.len()
    }

    /// The place of `key`, if it was added.
    fn find(&self, key: &str) -> (r: Option<usize>)
        ensures
            match r {
                Some(i) => self.holds(key@) && i == self.place(key@),
                None => !self.holds(key@),
            },
    {
        match self.index.get(key) {
            Some(i) => Some(*i),
            None => None,
        }
    }

    /// The key at place `i`.
    fn key(&self, i: usize) -> (k: &String)
        requires
            i < self.order().len(),
        ensures
            k@ == self.order()[i as int],
    {
        &self.keys[i]
    }

    /// Adds a key that is not there yet, at the end.
    fn push(self, key: &str) -> (r: Slots)
        requires
            !self.holds(key@),
        ensures
            r.order() == self.order().push(key@),
            forall|k: Seq<char>| r.holds(k) <==> self.holds(k) || k == key@,
            forall|k: Seq<char>| self.holds(k) ==> r.place(k) == self.place(k),
            r.place(key@) == self.order().len(),
    {
        proof {
            use_type_invariant(&self);
        }
        let Slots { mut keys, mut index } = self;
        let n = keys.len();
        let held = key.to_owned();
        proof {
            assert(views(keys@.push(held)) == views(keys@).push(key@));
        }
        index.insert(key.to_owned(), n);
        keys.push(held);
        Slots { keys, index }
    }
}

/// How often each value was counted. The view maps a value to its count;
/// `key_order` lists the values as they first appeared.
pub struct Groups {
    slots: Slots,
    counts: Vec<usize>,
    total: usize,
}

impl View for Groups {
    type V = Map<Seq<char>, nat>;

    closed spec fn view(&self) -> Map<Seq<char>, nat> {
        Map::new(
            |v: Seq<char>| self.slots.holds(v),
            |v: Seq<char>| self.counts@[self.slots.place(v)] as nat,
        )
    }
}

impl Groups {
    /// The counts belong to the values one to one and add up to the total.
    /// This holds of every `Groups` that exists at run time.
    #[verifier::type_invariant]
    pub closed spec fn wf(&self) -> bool {
        &&& self.slots.wf()
        &&& self.counts@.len() == self.slots.order().len()
        &&& self.total == sum(self.counts@)
        &&& forall|i: int| 0 <= i < self.counts@.len() ==> self.counts@[i] > 0
    }

    /// The values, each once, in order of first appearance.
    pub closed spec fn key_order(&self) -> Seq<Seq<char>> {
        self.slots.order()
    }

    /// How many values were counted in all.
    pub closed spec fn total_count(&self) -> nat {
        self.total as nat
    }

    /// Nothing counted yet.
    pub fn new() -> (g: Groups)
        ensures
            g@ == Map::<Seq<char>, nat>::empty(),
            g.key_order() == Seq::<Seq<char>>::empty(),
            g.total_count() == 0,
    {
        let slots = Slots::new();
        proof {
            use_type_invariant(&slots);
        }
        let g = Groups { slots, counts: Vec::new(), total: 0 };
        proof {
            g.slots.lemma_order();
            assert forall|v: Seq<char>| !g.slots.holds(v) by {
                assert(!g.slots.order().contains(v));
            }
            assert(g@ =~= Map::<Seq<char>, nat>::empty());
        }
        g
    }

    /// How many values were counted in all.
    pub fn total(&self) -> (n: usize)
        ensures
            n == self.total_count(),
    {
        self.total
    }

    /// How many distinct values were counted.
    pub fn len(&self) -> (n: usize)
        ensures
            n == self.key_order().len(),
    {
        self.slots.len()
    }

    /// How often `value` was counted.
    pub fn get(&self, value: &str) -> (n: usize)
        ensures
            n == seen(self@, value@),
    {
        proof {
            use_type_invariant(self);
            self.slots.lemma_order();
        }
        match self.slots.find(value) {
            Some(i) => self.counts[i],
            None => 0,
        }
    }

    /// Counts `value` once more. A value that was counted before keeps its
    /// place in the order; a new one goes to the end.
    pub fn count(self, value: &str) -> (g: Groups)
        requires
            self.total_count() < usize::MAX,
        ensures
            counted(self, value@, g),
    {
        proof {
            use_type_invariant(&self);
            self.slots.lemma_order();
        }
        let ghost want = self@.insert(value@, seen(self@, value@) + 1);
        let Groups { slots, mut counts, total } = self;
        match slots.find(value) {
            Some(i) => {
                proof {
                    lemma_sum_bounds(counts@, i as int);
                    lemma_sum_update(counts@, i as int, (counts@[i as int] + 1) as usize);
                }
                let c = counts[i] + 1;
                counts.set(i, c);
                let g = Groups { slots, counts, total: total + 1 };
                proof {
                    assert forall|v: Seq<char>| g@.contains_key(v) implies #[trigger] g@[v]
                        == want[v] by {
                        if v != value@ {
                            assert(g.slots.place(v) != i);
                        }
                    }
                    assert(g@ =~= want);
                }
                g
            },
            None => {
                let ghost n = counts@.len() as int;
                let slots = slots.push(value);
                counts.push(1);
                proof {
                    use_type_invariant(&slots);
                    assert(counts@.drop_last() == self.counts@);
                }
                let g = Groups { slots, counts, total: total + 1 };
                proof {
                    assert forall|v: Seq<char>| g@.contains_key(v) implies #[trigger] g@[v]
                        == want[v] by {
                        if v != value@ {
                            assert(self.slots.holds(v));
                            assert(g.slots.place(v) == self.slots.place(v));
                        }
                    }
                    assert(g@ =~= want);
                }
                g
            },
        }
    }

    /// The values with their counts, in order of first appearance.
    pub fn entries(&self) -> (r: Vec<(String, usize)>)
        ensures
            r@.len() == self.key_order().len(),
            forall|i: int|
                0 <= i < r@.len() ==> (#[trigger] r@[i]).0@ == self.key_order()[i] && r@[i].1
                    == self@[self.key_order()[i]],
    {
        proof {
            use_type_invariant(self);
            self.slots.lemma_order();
        }
        let mut r: Vec<(String, usize)> = Vec::new();
        let mut i: usize = 0;
        while i < self.slots.len()
            invariant
                i <= self.key_order().len(),
                self.counts@.len() == self.key_order().len(),
                r@.len() == i,
                forall|k: Seq<char>|
                    self.slots.holds(k) ==> 0 <= self.slots.place(k) < self.slots.order().len()
                        && self.slots.order()[self.slots.place(k)] == k,
                forall|j: int|
                    0 <= j < self.slots.order().len() ==> self.slots.holds(self.slots.order()[j])
                        && self.slots.place(self.slots.order()[j]) == j,
                forall|j: int|
                    0 <= j < i ==> (#[trigger] r@[j]).0@ == self.key_order()[j] && r@[j].1
                        == self@[self.key_order()[j]],
            decreases self.key_order().len() - i,
        {
            let key = self.slots.key(i).clone();
            r.push((key, self.counts[i]));
            i += 1;
        }
        r
    }

    /// The total is the sum of the counts of all values, and the values in
    /// `key_order` are the keys of the view, each once.
    pub proof fn lemma_total(&self)
        requires
            self.wf(),
        ensures
            self.total_count() == total_of(self.key_order(), self@),
            self.key_order().no_duplicates(),
            forall|v: Seq<char>| self.key_order().contains(v) <==> self@.contains_key(v),
            forall|v: Seq<char>| self@.contains_key(v) ==> self@[v] > 0,
    {
        self.slots.lemma_order();
        self.lemma_total_upto(self.counts@.len() as int);
        assert(self.key_order().take(self.counts@.len() as int) == self.key_order());
        assert(self.counts@.take(self.counts@.len() as int) == self.counts@);
    }

    /// The first `n` counts add up to what the view holds for the first `n` keys.
    proof fn lemma_total_upto(&self, n: int)
        requires
            self.wf(),
            0 <= n <= self.counts@.len(),
        ensures
            sum(self.counts@.take(n)) == total_of(self.key_order().take(n), self@),
        decreases n,
    {
        self.slots.lemma_order();
        if n > 0 {
            self.lemma_total_upto(n - 1);
            assert(self.counts@.take(n).drop_last() == self.counts@.take(n - 1));
            assert(self.key_order().take(n).drop_last() == self.key_order().take(n - 1));
            assert(self.key_order().take(n).last() == self.key_order()[n - 1]);
        }
    }
}

/// The values that the records give `label`, in order. A record without the
/// label gives none.
pub open spec fn values_of(records: Seq<Map<Seq<char>, Seq<char>>>, label: Seq<char>) -> Seq<
    Seq<char>,
>
    decreases records.len(),
{
    if records.len() == 0 {
        Seq::empty()
    } else if records.last().contains_key(label) {
        values_of(records.drop_last(), label).push(records.last()[label])
    } else {
        values_of(records.drop_last(), label)
    }
}

/// How many of the records hold `label`.
pub open spec fn holders(records: Seq<Map<Seq<char>, Seq<char>>>, label: Seq<char>) -> nat
    decreases records.len(),
{
    if records.len() == 0 {
        0
    } else if records.last().contains_key(label) {
        holders(records.drop_last(), label) + 1
    } else {
        holders(records.drop_last(), label)
    }
}

/// How often `v` occurs in `values`.
pub open spec fn occurrences(values: Seq<Seq<char>>, v: Seq<char>) -> nat
    decreases values.len(),
{
    if values.len() == 0 {
        0
    } else if values.last() == v {
        occurrences(values.drop_last(), v) + 1
    } else {
        occurrences(values.drop_last(), v)
    }
}

/// Each value that occurs in `values`, with the number of its occurrences.
pub open spec fn tally(values: Seq<Seq<char>>) -> Map<Seq<char>, nat> {
    Map::new(|v: Seq<char>| occurrences(values, v) > 0, |v: Seq<char>| occurrences(values, v))
}

/// A value occurs in `values` where its number of occurrences is not zero.
pub proof fn lemma_occurrences(values: Seq<Seq<char>>, v: Seq<char>)
    ensures
        occurrences(values, v) > 0 <==> values.contains(v),
    decreases values.len(),
{
    if values.len() > 0 {
        let init = values.drop_last();
        lemma_occurrences(init, v);
        if values.contains(v) {
            let k = choose|k: int| 0 <= k < values.len() && values[k] == v;
            if k < init.len() {
                assert(init[k] == v);
            }
        }
        if init.contains(v) {
            let k = choose|k: int| 0 <= k < init.len() && init[k] == v;
            assert(values[k] == v);
        }
        if values.last() == v {
            assert(values[values.len() - 1] == v);
        }
    }
}

/// Counting one more value changes the tally at that value alone.
pub proof fn lemma_tally_push(values: Seq<Seq<char>>, v: Seq<char>)
    ensures
        tally(values.push(v)) == tally(values).insert(v, seen(tally(values), v) + 1),
{
    let more = values.push(v);
    assert(more.drop_last() == values);
    assert(tally(more) =~= tally(values).insert(v, seen(tally(values), v) + 1));
}

/// As many values are given as there are records that hold the label.
pub proof fn lemma_values_len(records: Seq<Map<Seq<char>, Seq<char>>>, label: Seq<char>)
    ensures
        values_of(records, label).len() == holders(records, label),
    decreases records.len(),
{
    if records.len() > 0 {
        lemma_values_len(records.drop_last(), label);
    }
}

/// `after` is `before` with `v` counted once more: the count of `v` has
/// grown by one, a new value stands at the end of the order, and nothing
/// else has changed.
pub open spec fn counted(before: Groups, v: Seq<char>, after: Groups) -> bool {
    &&& after@ == before@.insert(v, seen(before@, v) + 1)
    &&& after.key_order() == if before.key_order().contains(v) {
        before.key_order()
    } else {
        before.key_order().push(v)
    }
    &&& after.total_count() == before.total_count() + 1
}

/// `after` holds what `before` holds.
pub open spec fn unchanged(before: Groups, after: Groups) -> bool {
    &&& after@ == before@
    &&& after.key_order() == before.key_order()
    &&& after.total_count() == before.total_count()
}

/// `after` is `before` once a record with the mapping `m` has been observed.
pub open spec fn observed(
    before: Groups,
    m: Map<Seq<char>, Seq<char>>,
    label: Seq<char>,
    after: Groups,
) -> bool {
    if m.contains_key(label) {
        counted(before, m[label], after)
    } else {
        unchanged(before, after)
    }
}

/// `g` holds the counts of `values`, in the order in which they came.
pub open spec fn counts(g: Groups, values: Seq<Seq<char>>) -> bool {
    &&& g@ == tally(values)
    &&& g.key_order() == first_seen(values)
    &&& g.total_count() == values.len()
}

/// Counting a value keeps a count in step with the values seen.
pub proof fn lemma_counts_push(before: Groups, values: Seq<Seq<char>>, v: Seq<char>, after: Groups)
    requires
        counts(before, values),
        counted(before, v, after),
    ensures
        counts(after, values.push(v)),
{
    lemma_tally_push(values, v);
    assert(values.push(v).drop_last() == values);
}

impl Groups {
    /// Counts the value that `record` gives `label`; a record without the
    /// label changes nothing.
    pub fn observe(self, record: &Record, label: &str) -> (g: Groups)
        requires
            self.total_count() < usize::MAX,
        ensures
            observed(self, record@, label@, g),
    {
        match record.get(label) {
            Some(value) => self.count(value.as_str()),
            None => self,
        }
    }

    /// One step of a count that reads its source line by line: a blank line
    /// changes nothing, another line is parsed and its record observed.
    pub fn feed(self, line: &str, label: &str) -> (r: Result<Groups, Error>)
        requires
            self.total_count() < usize::MAX,
        ensures
            match r {
                Ok(g) => if blank(line@) {
                    unchanged(self, g)
                } else {
                    parsed(line@) matches Ok(m) && observed(self, m, label@, g)
                },
                Err(Error::Parse(e)) => !blank(line@) && parsed(line@) == Err::<
                    Map<Seq<char>, Seq<char>>,
                    Seq<char>,
                >(e.msg@),
                Err(Error::Io(_)) => false,
            },
    {
        match read_record(line) {
            Ok(None) => Ok(self),
            Ok(Some(rec)) => Ok(self.observe(&rec, label)),
            Err(e) => Err(Error::Parse(e)),
        }
    }
}

/// What counting `label` over `lines` gives when all of them parse: the
/// values that the records give the label.
pub open spec fn grouped(lines: Seq<Seq<char>>, label: Seq<char>) -> Seq<Seq<char>> {
    values_of(records_of(lines)->Ok_0, label)
}

/// Counts the records of `lines` by the value that they give `label`.
///
/// Records without the label are passed over. The first line that does not
/// parse ends the count with its error. The counts add up to the number of
/// records that hold the label.
pub fn group_by(lines: &Vec<String>, label: &str) -> (r: Result<Groups, Error>)
    ensures
        match r {
            Ok(g) => records_of(views(lines@)) is Ok && counts(g, grouped(views(lines@), label@))
                && total_of(g.key_order(), g@) == holders(
                records_of(views(lines@))->Ok_0,
                label@,
            ),
            Err(Error::Parse(e)) => records_of(views(lines@)) == Err::<
                Seq<Map<Seq<char>, Seq<char>>>,
                Seq<char>,
            >(e.msg@),
            Err(Error::Io(_)) => false,
        },
{
    let ghost texts = views(lines@);
    let mut g = Groups::new();
    let mut i: usize = 0;
    proof {
        assert(texts.take(0) == Seq::<Seq<char>>::empty());
        assert(tally(Seq::<Seq<char>>::empty()) =~= Map::<Seq<char>, nat>::empty());
    }
    while i < lines.len()
        invariant
            i <= lines@.len(),
            texts == views(lines@),
            records_of(texts.take(i as int)) is Ok,
            counts(g, grouped(texts.take(i as int), label@)),
            g.total_count() <= i,
        decreases lines@.len() - i,
    {
        let ghost before = g;
        proof {
            assert(texts.take(i + 1).drop_last() == texts.take(i as int));
            assert(texts.take(i + 1).last() == lines@[i as int]@);
        }
        match g.feed(lines[i].as_str(), label) {
            Ok(next) => {
                g = next;
                proof {
                    let line = lines@[i as int]@;
                    let records = records_of(texts.take(i as int))->Ok_0;
                    if !blank(line) {
                        let m = parsed(line)->Ok_0;
                        assert(records.push(m).drop_last() == records);
                        if m.contains_key(label@) {
                            lemma_counts_push(before, values_of(records, label@), m[label@], g);
                        }
                    }
                }
            },
            Err(e) => {
                proof {
                    crate::ltsv::lemma_records_fail(texts, i as int);
                }
                return Err(e);
            },
        }
        i += 1;
    }
    proof {
        assert(texts.take(i as int) == texts);
        use_type_invariant(&g);
        g.lemma_total();
        lemma_values_len(records_of(texts)->Ok_0, label@);
    }
    Ok(g)
}

} // verus!
