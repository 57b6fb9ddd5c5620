//! A map from strings that keeps its entries in the order in which they came.

use vstd::hash_map::StringHashMap;
use vstd::prelude::*;

verus! {

broadcast use vstd::seq::group_seq_axioms;

/// A map from strings. Its entries stand in the order in which their keys were first inserted.
pub struct TextMap<V> {
    pub entries: Vec<(String, V)>,
    pub index: StringHashMap<usize>,
}

impl<V> View for TextMap<V> {
    type V = Map<Seq<char>, V>;

    open spec fn view(&self) -> Map<Seq<char>, V> {
        entry_map(self.entries@)
    }
}

/// Some entry has the key `k`.
pub open spec fn has_entry<V>(items: Seq<(String, V)>, k: Seq<char>) -> bool {
    exists|i: int| 0 <= i < items.len() && (#[trigger] items[i]).0@ == k
}

/// Where the entry with the key `k` stands.
pub open spec fn entry_at<V>(items: Seq<(String, V)>, k: Seq<char>) -> int {
    choose|i: int| 0 <= i < items.len() && (#[trigger] items[i]).0@ == k
}

/// The map that a list of entries with different keys stands for.
pub open spec fn entry_map<V>(items: Seq<(String, V)>) -> Map<Seq<char>, V> {
    Map::new(|k: Seq<char>| has_entry(items, k), |k: Seq<char>| items[entry_at(items, k)].1)
}

/// No two entries have the same key.
pub open spec fn distinct_keys<V>(items: Seq<(String, V)>) -> bool {
    forall|i: int, j: int|
        0 <= i < j < items.len() ==> (#[trigger] items[i]).0@ != (#[trigger] items[j]).0@
}

/// What the map of entries with different keys holds for the key of one of them.
pub proof fn lemma_entry_map<V>(items: Seq<(String, V)>, i: int)
    requires
        distinct_keys(items),
        0 <= i < items.len(),
    ensures
        entry_map(items).contains_key(items[i].0@),
        entry_map(items)[items[i].0@] == items[i].1,
        entry_at(items, items[i].0@) == i,
{
    let k = items[i].0@;
    assert(has_entry(items, k));
    let j = entry_at(items, k);
    assert(items[j].0@ == k);
    if i < j {
        assert(items[i].0@ != items[j].0@);
    } else if j < i {
        assert(items[j].0@ != items[i].0@);
    }
}

impl<V> TextMap<V> {
    /// The index tells where the entry of each key stands.
    pub open spec fn wf(&self) -> bool {
        &&& distinct_keys(self.entries@)
        &&& forall|k: Seq<char>| #[trigger]
            self.index@.contains_key(k) ==> self.index@[k] < self.entries@.len()
                && self.entries@[self.index@[k] as int].0@ == k
        &&& forall|i: int|
            0 <= i < self.entries@.len() ==> self.index@.contains_key(
                (#[trigger] self.entries@[i]).0@,
            )
    }

    /// A map without entries.
    pub fn new() -> (m: TextMap<V>)
        ensures
            m.wf(),
            m.entries@.len() == 0,
            m@ == Map::<Seq<char>, V>::empty(),
    {
        let m = TextMap { entries: Vec::new(), index: StringHashMap::new() };
        assert(m@ =~= Map::<Seq<char>, V>::empty());
        m
    }

    /// The map with the given entries, no two of which have the same key.
    pub fn from_entries(entries: Vec<(String, V)>) -> (m: TextMap<V>)
        requires
            distinct_keys(entries@),
        ensures
            m.wf(),
            m.entries@ == entries@,
    {
        let mut index: StringHashMap<usize> = StringHashMap::new();
        let mut i: usize = 0;
        while i < entries.len()
            invariant
                i <= entries@.len(),
                forall|k: Seq<char>| #[trigger]
                    index@.contains_key(k) ==> index@[k] < i && entries@[index@[k] as int].0@ == k,
                forall|j: int| 0 <= j < i ==> index@.contains_key((#[trigger] entries@[j]).0@),
            decreases entries@.len() - i,
        {
            index.insert(entries[i].0.clone(), i);
            i += 1;
        }
        TextMap { entries, index }
    }

    /// Whether there are no entries.
    pub fn is_empty(&self) -> (r: bool)
        ensures
            r == self@.is_empty(),
            r == (self.entries@.len() == 0),
    {
        let r = self.entries.len() == 0;
        proof {
            if !r {
                assert(has_entry(self.entries@, self.entries@[0].0@));
                assert(self@.contains_key(self.entries@[0].0@));
            }
        }
        r
    }

    /// Where the entry of a key stands.
    pub fn position(&self, k: &str) -> (r: Option<usize>)
        requires
            self.wf(),
        ensures
            match r {
                Some(i) => i < self.entries@.len() && self.entries@[i as int].0@ == k@
                    && self@.contains_key(k@) && self@[k@] == self.entries@[i as int].1,
                None => !self@.contains_key(k@),
            },
    {
        match self.index.get(k) {
            Some(i) => {
                proof {
                    lemma_entry_map(self.entries@, *i as int);
                }
                Some(*i)
            },
            None => {
                proof {
                    if has_entry(self.entries@, k@) {
                        let j = entry_at(self.entries@, k@);
                        assert(self.entries@[j].0@ == k@);
                        assert(self.index@.contains_key(self.entries@[j].0@));
                    }
                }
                None
            },
        }
    }

    /// What the map holds for a key.
    pub fn get(&self, k: &str) -> (r: Option<&V>)
        requires
            self.wf(),
        ensures
            match r {
                Some(v) => self@.contains_key(k@) && self@[k@] == *v,
                None => !self@.contains_key(k@),
            },
    {
        match self.position(k) {
            Some(i) => Some(&self.entries[i].1),
            None => None,
        }
    }

    /// Lets the map hold `v` for the key `k`, whatever it held for it before.
    pub fn insert(&mut self, k: String, v: V)
        requires
            old(self).wf(),
        ensures
            final(self).wf(),
            final(self)@ == old(self)@.insert(k@, v),
            match old(self)@.contains_key(k@) {
                true => final(self).entries@.len() == old(self).entries@.len(),
                false => final(self).entries@ == old(self).entries@.push((k, v)),
            },
            forall|i: int|
                0 <= i < old(self).entries@.len() ==> (#[trigger] final(self).entries@[i]).0
                    == old(self).entries@[i].0,
    {
        let ghost before = self.entries@;
        let ghost key = k@;
        match self.position(k.as_str()) {
            Some(i) => {
                self.entries[i].1 = v;
                proof {
                    let after = self.entries@;
                    assert(after.len() == before.len());
                    assert forall|j: int| 0 <= j < before.len() implies (#[trigger] after[j]).0
                        == before[j].0 by {}
                    assert forall|a: int, b: int| 0 <= a < b < after.len() implies (
                    #[trigger] after[a]).0@ != (#[trigger] after[b]).0@ by {
                        assert(before[a].0@ != before[b].0@);
                    }
                    assert forall|q: Seq<char>| has_entry(after, q) == has_entry(before, q) by {
                        if has_entry(after, q) {
                            assert(before[entry_at(after, q)].0@ == q);
                        }
                        if has_entry(before, q) {
                            assert(after[entry_at(before, q)].0@ == q);
                        }
                    }
                    assert forall|q: Seq<char>| #[trigger] entry_map(before).insert(
                        key,
                        v,
                    ).contains_key(q) implies entry_map(after)[q] == entry_map(before).insert(
                        key,
                        v,
                    )[q] by {
                        let j = entry_at(before, q);
                        if has_entry(before, q) {
                            lemma_entry_map(before, j);
                            lemma_entry_map(after, j);
                        }
                        lemma_entry_map(after, i as int);
                    }
                    assert(entry_map(after) =~= entry_map(before).insert(key, v));
                }
            },
            None => {
                let i: usize = self.entries.len();
                let name = k.clone();
                self.entries.push((k, v));
                self.index.insert(name, i);
                proof {
                    let after = self.entries@;
                    assert(after == before.push((k, v)));
                    assert forall|a: int, b: int| 0 <= a < b < after.len() implies (
                    #[trigger] after[a]).0@ != (#[trigger] after[b]).0@ by {
                        if b < before.len() {
                            assert(before[a].0@ != before[b].0@);
                        } else {
                            assert(has_entry(before, before[a].0@));
                        }
                    }
                    lemma_push_entry(before, (k, v));
                }
            },
        }
    }
}

/// The map of one more entry.
pub proof fn lemma_push_entry<V>(items: Seq<(String, V)>, e: (String, V))
    requires
        distinct_keys(items.push(e)),
    ensures
        entry_map(items.push(e)) == entry_map(items).insert(e.0@, e.1),
{
    let after = items.push(e);
    assert forall|q: Seq<char>| has_entry(after, q) == (has_entry(items, q) || q == e.0@) by {
        if has_entry(after, q) {
            let j = entry_at(after, q);
            if j < items.len() {
                assert(items[j].0@ == q);
            }
        }
        if has_entry(items, q) {
            assert(after[entry_at(items, q)].0@ == q);
        }
        assert(after[items.len() as int].0@ == e.0@);
    }
    assert(distinct_keys(items)) by {
        assert forall|i: int, j: int| 0 <= i < j < items.len() implies (#[trigger] items[i]).0@ != (
        #[trigger] items[j]).0@ by {
            assert(after[i].0@ != after[j].0@);
        }
    }
    assert forall|q: Seq<char>| #[trigger] entry_map(items).insert(e.0@, e.1).contains_key(
        q,
    ) implies entry_map(after)[q] == entry_map(items).insert(e.0@, e.1)[q] by {
        lemma_entry_map(after, items.len() as int);
        if has_entry(items, q) {
            let j = entry_at(items, q);
            lemma_entry_map(items, j);
            lemma_entry_map(after, j);
        }
    }
    assert(entry_map(after) =~= entry_map(items).insert(e.0@, e.1));
}

} // verus!
