//! A record: the labels of one line, each with its value.

use vstd::prelude::*;
use vstd::string::*;
use crate::text::{str_eq, views};

verus! {

/// The labels of `labels` in order of first appearance, each once.
pub open spec fn first_seen(labels: Seq<Seq<char>>) -> Seq<Seq<char>>
    decreases labels.len(),
{
    if labels.len() == 0 {
        Seq::empty()
    } else {
        let before = first_seen(labels.drop_last());
        if before.contains(labels.last()) {
            before
        } else {
            before.push(labels.last())
        }
    }
}

/// `first_seen` keeps every label, once.
pub proof fn lemma_first_seen(labels: Seq<Seq<char>>)
    ensures
        first_seen(labels).no_duplicates(),
        forall|l: Seq<char>| #[trigger] first_seen(labels).contains(l) <==> labels.contains(l),
        labels.len() > 0 ==> first_seen(labels).len() > 0,
    decreases labels.len(),
{
    if labels.len() > 0 {
        let init = labels.drop_last();
        let before = first_seen(init);
        let last = labels.last();
        lemma_first_seen(init);
        assert forall|l: Seq<char>| #[trigger]
            first_seen(labels).contains(l) <==> labels.contains(l) by {
            assert(before.contains(l) <==> init.contains(l));
            if labels.contains(l) {
                let k = choose|k: int| 0 <= k < labels.len() && labels[k] == l;
                if k < init.len() {
                    assert(init[k] == l);
                }
            }
            if init.contains(l) {
                let k = choose|k: int| 0 <= k < init.len() && init[k] == l;
                assert(labels[k] == l);
            }
            if l == last {
                assert(labels[labels.len() - 1] == l);
            }
            if !before.contains(last) {
                if before.contains(l) {
                    let k = choose|k: int| 0 <= k < before.len() && before[k] == l;
                    assert(before.push(last)[k] == l);
                }
                if before.push(last).contains(l) {
                    let k = choose|k: int|
                        0 <= k < before.push(last).len() && before.push(last)[k] == l;
                    if k < before.len() {
                        assert(before[k] == l);
                    }
                }
                assert(before.push(last)[before.len() as int] == last);
            }
        }
        if !before.contains(last) {
            assert forall|i: int, j: int|
                0 <= i < before.push(last).len() && 0 <= j < before.push(last).len() && i
                    != j implies before.push(last)[i] != before.push(last)[j] by {
                if i < before.len() && j < before.len() {
                } else if i < before.len() {
                    assert(before[i] != last);
                } else {
                    assert(before[j] != last);
                }
            }
        }
    }
}

/// One parsed line. Its view maps each label to its value; `label_order`
/// lists the labels as they first appeared.
#[derive(Debug)]
pub struct Record {
    labels: Vec<String>,
    values: Vec<String>,
}

impl View for Record {
    type V = Map<Seq<char>, Seq<char>>;

    closed spec fn view(&self) -> Map<Seq<char>, Seq<char>> {
        Map::new(
            |l: Seq<char>| views(self.labels@).contains(l),
            |l: Seq<char>| self.values@[self.slot(l)]@,
        )
    }
}

impl Record {
    /// Every label has a value and no label is held twice. This holds of
    /// every record that exists at run time.
    #[verifier::type_invariant]
    pub closed spec fn wf(&self) -> bool {
        &&& self.labels@.len() == self.values@.len()
        &&& forall|i: int, j: int|
            0 <= i < j < self.labels@.len() ==> self.labels@[i]@ != self.labels@[j]@
    }

    /// The place of the label `l`.
    spec fn slot(&self, l: Seq<char>) -> int {
        choose|i: int| 0 <= i < self.labels@.len() && self.labels@[i]@ == l
    }

    /// The labels, each once, in order of first appearance.
    pub closed spec fn label_order(&self) -> Seq<Seq<char>> {
        views(self.labels@)
    }

    /// The labels are exactly the keys of the view, and none is listed twice.
    pub proof fn lemma_labels(&self)
        requires
            self.wf(),
        ensures
            self.label_order().no_duplicates(),
            forall|l: Seq<char>| self.label_order().contains(l) <==> self@.contains_key(l),
    {
        assert forall|l: Seq<char>| self.label_order().contains(l) implies self@.contains_key(l) by {}
    }

    /// A record without labels.
    pub(crate) fn new() -> (r: Record)
        ensures
            r@ == Map::<Seq<char>, Seq<char>>::empty(),
            r.label_order() == Seq::<Seq<char>>::empty(),
    {
        let r = Record { labels: Vec::new(), values: Vec::new() };
        assert(r@ =~= Map::<Seq<char>, Seq<char>>::empty());
        assert(r.label_order() =~= Seq::<Seq<char>>::empty());
        r
    }

    /// How many labels the record holds.
    pub fn len(&self) -> (n: usize)
        ensures
            n == self.label_order().len(),
            n == self@.dom().len(),
            self@.dom().finite(),
    {
        proof {
            use_type_invariant(self);
            self.lemma_labels();
            let order = self.label_order();
            order.unique_seq_to_set();
            assert(order.to_set() =~= self@.dom());
        }
        self.labels.len()
    }

    /// The value of `label`, if the record holds that label.
    pub fn get(&self, label: &str) -> (r: Option<&String>)
        ensures
            match r {
                Some(v) => self@.contains_key(label@) && v@ == self@[label@],
                None => !self@.contains_key(label@),
            },
    {
        proof {
            use_type_invariant(self);
        }
        match Self::find_slot(&self.labels, label) {
            Some(i) => {
                proof {
                    assert(views(self.labels@)[i as int] == label@);
                    let s = self.slot(label@);
                    assert(self.labels@[s]@ == label@);
                }
                Some(&self.values[i])
            },
            None => None,
        }
    }

    /// Whether the record holds `label`.
    pub fn contains(&self, label: &str) -> (r: bool)
        ensures
            r == self@.contains_key(label@),
    {
        match Self::find_slot(&self.labels, label) {
            Some(i) => {
                assert(views(self.labels@)[i as int] == label@);
                true
            },
            None => false,
        }
    }

    /// The labels, each once, in order of first appearance.
    pub fn labels(&self) -> (r: Vec<String>)
        ensures
            views(r@) == self.label_order(),
    {
        let mut r: Vec<String> = Vec::new();
        let mut i: usize = 0;
        while i < self.labels.len()
            invariant
                i <= self.labels@.len(),
                views(r@) == views(self.labels@).take(i as int),
            decreases self.labels@.len() - i,
        {
            let l = self.labels[i].clone();
            proof {
                assert(views(r@.push(l)) == views(r@).push(l@));
                assert(views(self.labels@).take(i + 1) == views(self.labels@).take(i as int).push(l@));
            }
            r.push(l);
            i += 1;
        }
        assert(views(self.labels@).take(i as int) == views(self.labels@));
        r
    }

    /// The place of `label` among `labels`, if it is there.
    fn find_slot(labels: &Vec<String>, label: &str) -> (r: Option<usize>)
        ensures
            match r {
                Some(i) => i < labels@.len() && labels@[i as int]@ == label@,
                None => !views(labels@).contains(label@),
            },
    {
        let mut i: usize = 0;
        while i < labels.len()
            invariant
                i <= labels@.len(),
                forall|j: int| 0 <= j < i ==> labels@[j]@ != label@,
            decreases labels@.len() - i,
        {
            if str_eq(labels[i].as_str(), label) {
                return Some(i);
            }
            i += 1;
        }
        None
    }

    /// The record with `label` set to `value`. A label that is already there
    /// keeps its place; a new one goes to the end.
    pub(crate) fn put(self, label: String, value: String) -> (r: Record)
        ensures
            r@ == self@.insert(label@, value@),
            r.label_order() == if self.label_order().contains(label@) {
                self.label_order()
            } else {
                self.label_order().push(label@)
            },
    {
        proof {
            use_type_invariant(&self);
        }
        let ghost want = self@.insert(label@, value@);
        let Record { mut labels, mut values } = self;
        match Self::find_slot(&labels, label.as_str()) {
            Some(i) => {
                values.set(i, value);
                let r = Record { labels, values };
                proof {
                    assert(views(r.labels@)[i as int] == label@);
                    assert forall|l: Seq<char>| r@.contains_key(l) implies #[trigger] r@[l] == want[l] by {
                        let k = choose|k: int| 0 <= k < r.labels@.len() && views(r.labels@)[k] == l;
                        assert(r.labels@[k]@ == l);
                        assert(r.slot(l) == self.slot(l));
                    }
                    assert(r@ =~= want);
                }
                r
            },
            None => {
                proof {
                    assert(views(labels@.push(label)) == views(labels@).push(label@));
                }
                labels.push(label);
                values.push(value);
                let ghost n = self.labels@.len() as int;
                proof {
                    assert forall|i: int, j: int| 0 <= i < j < labels@.len() implies labels@[i]@
                        != labels@[j]@ by {
                        if j == n {
                            assert(views(self.labels@)[i] == self.labels@[i]@);
                        }
                    }
                }
                let r = Record { labels, values };
                proof {
                    assert forall|l: Seq<char>| #[trigger] r@.contains_key(l) == want.contains_key(l) by {
                        if views(r.labels@).contains(l) {
                            let k = choose|k: int| 0 <= k < r.labels@.len() && views(r.labels@)[k] == l;
                            if k < n {
                                assert(views(self.labels@)[k] == l);
                            }
                        }
                        if views(self.labels@).contains(l) {
                            let k = choose|k: int| 0 <= k < n && views(self.labels@)[k] == l;
                            assert(views(r.labels@)[k] == l);
                        }
                        if l == label@ {
                            assert(views(r.labels@)[n] == l);
                        }
                    }
                    assert forall|l: Seq<char>| r@.contains_key(l) implies #[trigger] r@[l] == want[l] by {
                        let s = r.slot(l);
                        let k = choose|k: int| 0 <= k < r.labels@.len() && views(r.labels@)[k] == l;
                        assert(r.labels@[k]@ == l);
                        assert(r.labels@[s]@ == l);
                        if l != label@ {
                            assert(s < n);
                            assert(self.labels@[s]@ == l);
                            let t = self.slot(l);
                            assert(self.labels@[t]@ == l);
                            assert(s == t);
                        } else {
                            assert(s == n);
                        }
                    }
                    assert(r@ =~= want);
                }
                r
            },
        }
    }
}

} // verus!
