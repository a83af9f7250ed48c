//! A map from texts to values that keeps its keys in text order.
use vstd::prelude::*;

use crate::text::{
    lemma_text_less_irreflexive, lemma_text_less_total, lemma_text_less_transitive, less, same_text,
    text_less,
};

verus! {

broadcast use vstd::seq_lib::group_seq_properties;

/// A map whose keys are texts, walked in text order.
pub struct TextMap<V> {
    entries: Vec<(String, V)>,
}

impl<V> View for TextMap<V> {
    type V = Map<Seq<char>, V>;

    open spec fn view(&self) -> Map<Seq<char>, V> {
        Map::new(
            |k: Seq<char>| self.keys().contains(k),
            |k: Seq<char>| self.pairs()[self.keys().index_of(k)].1,
        )
    }
}

impl<V> TextMap<V> {
    /// The entries, as they are walked.
    pub closed spec fn pairs(&self) -> Seq<(String, V)> {
        self.entries@
    }

    /// The keys, as they are walked.
    pub open spec fn keys(&self) -> Seq<Seq<char>> {
        Seq::new(self.pairs().len(), |i: int| self.pairs()[i].0@)
    }

    /// Each key comes before the next one, so none occurs twice.
    pub open spec fn wf(&self) -> bool {
        forall|i: int, j: int|
            0 <= i < j < self.pairs().len() ==> text_less(
                (#[trigger] self.pairs()[i]).0@,
                (#[trigger] self.pairs()[j]).0@,
            )
    }

    /// The entry at place `i` is what the map holds under its key.
    pub proof fn lemma_at(&self, i: int)
        requires
            self.wf(),
            0 <= i < self.pairs().len(),
        ensures
            self@.dom().contains(self.pairs()[i].0@),
            self@[self.pairs()[i].0@] == self.pairs()[i].1,
            self.keys().index_of(self.pairs()[i].0@) == i,
    {
        let k = self.pairs()[i].0@;
        assert(self.keys()[i] == k);
        let j = self.keys().index_of(k);
        assert(self.keys()[j] == k);
        lemma_text_less_irreflexive(k);
        if i < j {
            assert(text_less(self.pairs()[i].0@, self.pairs()[j].0@));
        }
        if j < i {
            assert(text_less(self.pairs()[j].0@, self.pairs()[i].0@));
        }
    }

    /// What the map holds under a key stands at one of its places.
    pub proof fn lemma_place(&self, k: Seq<char>)
        requires
            self.wf(),
            self@.dom().contains(k),
        ensures
            0 <= self.keys().index_of(k) < self.pairs().len(),
            self.pairs()[self.keys().index_of(k)].0@ == k,
            self.pairs()[self.keys().index_of(k)].1 == self@[k],
    {
        assert(self.keys()[self.keys().index_of(k)] == k);
    }

    /// A map without entries.
    pub fn new() -> (r: Self)
        ensures
            r.wf(),
            r.pairs() == Seq::<(String, V)>::empty(),
            r@ == Map::<Seq<char>, V>::empty(),
    {
        let r = TextMap { entries: Vec::new() };
        assert(r.keys() =~= Seq::<Seq<char>>::empty());
        assert(r@ =~= Map::<Seq<char>, V>::empty());
        r
    }

    /// The number of entries.
    pub fn len(&self) -> (r: usize)
        ensures
            r == self.pairs().len(),
    {
        self.entries.len()
    }

    /// Whether there are no entries.
    pub fn is_empty(&self) -> (r: bool)
        ensures
            r == (self.pairs().len() == 0),
            r == (self@ == Map::<Seq<char>, V>::empty()),
    {
        proof {
            if self.pairs().len() > 0 {
                assert(self.keys()[0] == self.pairs()[0].0@);
                assert(self@.dom().contains(self.pairs()[0].0@));
            } else {
                assert(self@ =~= Map::<Seq<char>, V>::empty());
            }
        }
        self.entries.len() == 0
    }

    /// The key at place `i` in text order.
    pub fn key(&self, i: usize) -> (r: &String)
        requires
            i < self.pairs().len(),
        ensures
            *r == self.pairs()[i as int].0,
    {
        &self.entries[i].0
    }

    /// The value at place `i` in text order.
    pub fn value(&self, i: usize) -> (r: &V)
        requires
            i < self.pairs().len(),
        ensures
            *r == self.pairs()[i as int].1,
    {
        &self.entries[i].1
    }

    /// The first place whose key does not come before `key`.
    fn lower_bound(&self, key: &str) -> (r: usize)
        requires
            self.wf(),
        ensures
            r <= self.pairs().len(),
            forall|i: int|
                0 <= i < r ==> text_less((#[trigger] self.pairs()[i]).0@, key@),
            forall|i: int|
                r <= i < self.pairs().len() ==> !text_less((#[trigger] self.pairs()[i]).0@, key@),
    {
        let mut lo: usize = 0;
        let mut hi: usize = self.entries.len();
        while lo < hi
            invariant
                self.wf(),
                lo <= hi <= self.pairs().len(),
                forall|i: int|
                    0 <= i < lo ==> text_less((#[trigger] self.pairs()[i]).0@, key@),
                forall|i: int|
                    hi <= i < self.pairs().len() ==> !text_less(
                        (#[trigger] self.pairs()[i]).0@,
                        key@,
                    ),
            decreases hi - lo,
        {
            let mid: usize = lo + (hi - lo) / 2;
            let ghost at = self.pairs()[mid as int].0@;
            if less(self.entries[mid].0.as_str(), key) {
                assert forall|i: int| 0 <= i < mid + 1 implies text_less(
                    (#[trigger] self.pairs()[i]).0@,
                    key@,
                ) by {
                    if i < mid {
                        lemma_text_less_transitive(self.pairs()[i].0@, at, key@);
                    }
                }
                lo = mid + 1;
            } else {
                assert forall|i: int| mid <= i < self.pairs().len()
                    implies !text_less(
                    (#[trigger] self.pairs()[i]).0@,
                    key@,
                ) by {
                    if i > mid && text_less(self.pairs()[i].0@, key@) {
                        lemma_text_less_transitive(at, self.pairs()[i].0@, key@);
                    }
                }
                hi = mid;
            }
        }
        lo
    }

    /// The place of `key`, where it is a key.
    fn find(&self, key: &str) -> (r: Option<usize>)
        requires
            self.wf(),
        ensures
            match r {
                Some(i) => i < self.pairs().len() && self.pairs()[i as int].0@ == key@,
                None => !self@.dom().contains(key@),
            },
    {
        let at = self.lower_bound(key);
        if at < self.entries.len() && same_text(self.entries[at].0.as_str(), key) {
            return Some(at);
        }
        proof {
            if self@.dom().contains(key@) {
                self.lemma_place(key@);
                let i = self.keys().index_of(key@);
                lemma_text_less_irreflexive(key@);
                if i > at {
                    assert(text_less(self.pairs()[at as int].0@, key@));
                }
            }
        }
        None
    }

    /// What the map holds under `key`.
    pub fn get(&self, key: &str) -> (r: Option<&V>)
        requires
            self.wf(),
        ensures
            r == (if self@.dom().contains(key@) {
                Some(&self@[key@])
            } else {
                None
            }),
    {
        match self.find(key) {
            Some(i) => {
                proof {
                    self.lemma_at(i as int);
                }
                Some(&self.entries[i].1)
            },
            None => None,
        }
    }

    /// Puts `value` under `key`, in place of what was there.
    pub fn insert(&mut self, key: String, value: V)
        requires
            old(self).wf(),
        ensures
            final(self).wf(),
            final(self)@ == old(self)@.insert(key@, value),
    {
        let ghost before = *self;
        match self.find(key.as_str()) {
            Some(i) => {
                let ghost k = key@;
                self.entries.set(i, (key, value));
                proof {
                    assert(self.keys() =~= before.keys());
                    assert forall|j: int| 0 <= j < self.pairs().len() implies self@[(
                    #[trigger] self.pairs()[j]).0@] == before@.insert(k, value)[self.pairs()[j].0@] by {
                        self.lemma_at(j);
                        before.lemma_at(j);
                        before.lemma_at(i as int);
                    }
                    before.lemma_at(i as int);
                    assert(self@.dom() =~= before@.dom());
                    assert(before@.insert(k, value).dom() =~= before@.dom());
                    assert forall|q: Seq<char>| #[trigger]
                        self@.dom().contains(q) implies self@[q] == before@.insert(
                        k,
                        value,
                    )[q] by {
                        self.lemma_place(q);
                    }
                    assert(self@ =~= before@.insert(k, value));
                }
            },
            None => {
                let at = self.lower_bound(key.as_str());
                let ghost k = key@;
                self.entries.insert(at, (key, value));
                proof {
                    lemma_inserted(before, *self, at as int, k, value);
                }
            },
        }
    }

    /// Takes `key` and its value out, and returns the value.
    pub fn remove(&mut self, key: &str) -> (r: Option<V>)
        requires
            old(self).wf(),
        ensures
            final(self).wf(),
            final(self)@ == old(self)@.remove(key@),
            r == (if old(self)@.dom().contains(key@) {
                Some(old(self)@[key@])
            } else {
                None
            }),
    {
        let ghost before = *self;
        match self.find(key) {
            Some(i) => {
                let (_, value) = self.entries.remove(i);
                proof {
                    before.lemma_at(i as int);
                    lemma_removed(before, *self, i as int);
                }
                Some(value)
            },
            None => {
                assert(self@.remove(key@) =~= self@);
                None
            },
        }
    }
}

/// Putting a new key at its place keeps the order and adds that key alone.
proof fn lemma_inserted<V>(before: TextMap<V>, after: TextMap<V>, at: int, k: Seq<char>, value: V)
    requires
        before.wf(),
        0 <= at <= before.pairs().len(),
        after.pairs().len() == before.pairs().len() + 1,
        after.pairs()[at].0@ == k,
        after.pairs()[at].1 == value,
        forall|i: int| 0 <= i < at ==> #[trigger] after.pairs()[i] == before.pairs()[i],
        forall|i: int|
            at < i < after.pairs().len() ==> #[trigger] after.pairs()[i] == before.pairs()[i - 1],
        forall|i: int|
            0 <= i < at ==> text_less((#[trigger] before.pairs()[i]).0@, k),
        forall|i: int|
            at <= i < before.pairs().len() ==> !text_less((#[trigger] before.pairs()[i]).0@, k),
        !before@.dom().contains(k),
    ensures
        after.wf(),
        after@ == before@.insert(k, value),
{
    assert forall|i: int| at <= i < before.pairs().len() implies text_less(
        k,
        (#[trigger] before.pairs()[i]).0@,
    ) by {
        lemma_text_less_total(k, before.pairs()[i].0@);
        before.lemma_at(i);
    }
    assert forall|i: int, j: int| 0 <= i < j < after.pairs().len() implies text_less(
        (#[trigger] after.pairs()[i]).0@,
        (#[trigger] after.pairs()[j]).0@,
    ) by {
        let bi = if i < at { i } else { i - 1 };
        let bj = if j < at { j } else { j - 1 };
        if i != at && j != at {
            assert(text_less(before.pairs()[bi].0@, before.pairs()[bj].0@));
        } else if i == at {
            assert(text_less(k, before.pairs()[bj].0@));
        } else {
            assert(text_less(before.pairs()[bi].0@, k));
        }
    }
    let goal = before@.insert(k, value);
    assert forall|q: Seq<char>| #[trigger]
        after@.dom().contains(q) implies goal.dom().contains(q) && after@[q] == goal[q] by {
        after.lemma_place(q);
        let i = after.keys().index_of(q);
        if i < at {
            before.lemma_at(i);
        } else if i > at {
            before.lemma_at(i - 1);
        }
    }
    assert forall|q: Seq<char>| #[trigger]
        goal.dom().contains(q) implies after@.dom().contains(q) by {
        if q == k {
            after.lemma_at(at);
        } else {
            before.lemma_place(q);
            let i = before.keys().index_of(q);
            after.lemma_at(if i < at { i } else { i + 1 });
            if i >= at {
                assert(after.pairs()[i + 1] == before.pairs()[i]);
            }
        }
    }
    assert(after@ =~= goal);
}

/// Taking the entry at one place out keeps the order and drops its key alone.
proof fn lemma_removed<V>(before: TextMap<V>, after: TextMap<V>, at: int)
    requires
        before.wf(),
        0 <= at < before.pairs().len(),
        after.pairs() == before.pairs().remove(at),
    ensures
        after.wf(),
        after@ == before@.remove(before.pairs()[at].0@),
{
    let k = before.pairs()[at].0@;
    assert forall|i: int| 0 <= i < after.pairs().len() implies #[trigger] after.pairs()[i]
        == before.pairs()[if i < at { i } else { i + 1 }] by {}
    let goal = before@.remove(k);
    assert(after.wf());
    assert forall|q: Seq<char>| #[trigger]
        after@.dom().contains(q) implies goal.dom().contains(q) && after@[q] == goal[q] by {
        after.lemma_place(q);
        let i = after.keys().index_of(q);
        let b = if i < at { i } else { i + 1 };
        before.lemma_at(b);
        before.lemma_at(at);
    }
    assert forall|q: Seq<char>| #[trigger]
        goal.dom().contains(q) implies after@.dom().contains(q) by {
        before.lemma_place(q);
        let i = before.keys().index_of(q);
        before.lemma_at(i);
        after.lemma_at(if i < at { i } else { i - 1 });
    }
    assert(after@ =~= goal);
}

} // verus!
