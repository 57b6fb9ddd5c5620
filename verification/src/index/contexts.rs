//! How often which word stood before which phrase.

use vstd::hash_map::StringHashMap;
use vstd::multiset::Multiset;
use vstd::prelude::*;

use super::occurrences::counted;
use crate::text::str_eq;

verus! {

/// The words that were seen before one phrase, each with the number of times.
pub struct ContextEntry {
    pub phrase: String,
    pub counts: Vec<(String, u32)>,
}

/// The left contexts of a set of phrases. Its view is the bag of the pairs of a phrase and a word
/// that were recorded.
pub struct ContextTable {
    pub entries: Vec<ContextEntry>,
    pub index: StringHashMap<usize>,
    pub bag: Ghost<Multiset<(Seq<char>, Seq<char>)>>,
}

impl View for ContextTable {
    type V = Multiset<(Seq<char>, Seq<char>)>;

    open spec fn view(&self) -> Multiset<(Seq<char>, Seq<char>)> {
        self.bag@
    }
}

/// The word `c` is among `counts`.
pub open spec fn lists(counts: Seq<(String, u32)>, c: Seq<char>) -> bool {
    exists|j: int| 0 <= j < counts.len() && (#[trigger] counts[j]).0@ == c
}

/// `counts` lists no word twice, and for each word how often the pair of `phrase` and the word is
/// in `bag`.
pub open spec fn counts_match(
    counts: Seq<(String, u32)>,
    phrase: Seq<char>,
    bag: Multiset<(Seq<char>, Seq<char>)>,
) -> bool {
    &&& counts.len() > 0
    &&& forall|i: int, j: int|
        0 <= i < j < counts.len() ==> (#[trigger] counts[i]).0@ != (#[trigger] counts[j]).0@
    &&& forall|j: int|
        0 <= j < counts.len() ==> 0 < (#[trigger] counts[j]).1 == bag.count((phrase, counts[j].0@))
    &&& forall|c: Seq<char>| #[trigger] bag.count((phrase, c)) > 0 ==> lists(counts, c)
}

impl ContextTable {
    /// The entries list every recorded phrase once, and what was recorded with it.
    pub open spec fn wf(&self) -> bool {
        &&& forall|k: Seq<char>| #[trigger]
            self.index@.contains_key(k) ==> self.index@[k] < self.entries@.len()
                && self.entries@[self.index@[k] as int].phrase@ == k
        &&& forall|i: int|
            0 <= i < self.entries@.len() ==> self.index@.contains_key(
                (#[trigger] self.entries@[i]).phrase@,
            ) && self.index@[self.entries@[i].phrase@] == i
        &&& forall|i: int|
            0 <= i < self.entries@.len() ==> counts_match(
                (#[trigger] self.entries@[i]).counts@,
                self.entries@[i].phrase@,
                self@,
            )
        &&& forall|k: Seq<char>, c: Seq<char>| #[trigger]
            self@.count((k, c)) > 0 ==> self.index@.contains_key(k)
    }

    /// The phrase has a left context.
    pub open spec fn has(&self, phrase: Seq<char>) -> bool {
        self.index@.contains_key(phrase)
    }

    /// No pair is counted more often than a counter reaches.
    pub proof fn lemma_count_fits(&self, k: Seq<char>, c: Seq<char>)
        requires
            self.wf(),
        ensures
            self@.count((k, c)) <= u32::MAX,
    {
        if self@.count((k, c)) > 0 {
            let e = self.entries@[self.index@[k] as int];
            assert(counts_match(e.counts@, k, self@));
            assert(lists(e.counts@, c));
        }
    }

    /// A table without contexts.
    pub fn new() -> (t: ContextTable)
        ensures
            t.wf(),
            t@ == Multiset::<(Seq<char>, Seq<char>)>::empty(),
            forall|k: Seq<char>| !#[trigger] t.has(k),
    {
        ContextTable {
            entries: Vec::new(),
            index: StringHashMap::new(),
            bag: Ghost(Multiset::empty()),
        }
    }

    /// Records `n` more times that `word` stood before `phrase`, as far as the counter reaches.
    pub fn add(&mut self, phrase: String, word: String, n: u32)
        requires
            old(self).wf(),
            n > 0,
        ensures
            final(self).wf(),
            final(self)@ == added(old(self)@, phrase@, word@, n as nat),
            forall|k: Seq<char>| #[trigger]
                final(self).has(k) == (old(self).has(k) || k == phrase@),
    {
        broadcast use {
            vstd::multiset::lemma_update_same,
            vstd::multiset::lemma_update_different,
        };

        let ghost p = phrase@;
        let ghost w = word@;
        let ghost bag = self.bag@;
        let ghost new_bag = added(bag, p, w, n as nat);
        match self.index.get(phrase.as_str()) {
            Some(at) => {
                let i: usize = *at;
                let mut j: usize = 0;
                assert(counts_match(self.entries@[i as int].counts@, p, bag));
                while j < self.entries[i].counts.len() && !str_eq(
                    self.entries[i].counts[j].0.as_str(),
                    word.as_str(),
                )
                    invariant
                        i < self.entries@.len(),
                        j <= self.entries@[i as int].counts@.len(),
                        forall|k: int|
                            0 <= k < j ==> (#[trigger] self.entries@[i as int].counts@[k]).0@
                                != word@,
                    decreases self.entries@[i as int].counts@.len() - j,
                {
                    j += 1;
                }
                let ghost before = self.entries@[i as int].counts@;
                if j < self.entries[i].counts.len() {
                    let m: u32 = self.entries[i].counts[j].1;
                    self.entries[i].counts[j].1 = if m > u32::MAX - n {
                        u32::MAX
                    } else {
                        m + n
                    };
                } else {
                    assert(!lists(before, w));
                    self.entries[i].counts.push((word, n));
                }
                self.bag = Ghost(new_bag);
                proof {
                    let after = self.entries@[i as int].counts@;
                    assert(counts_match(after, p, new_bag)) by {
                        assert forall|c: Seq<char>| #[trigger]
                            new_bag.count((p, c)) > 0 implies lists(after, c) by {
                            if c == w {
                                assert(after[j as int].0@ == c);
                            } else {
                                assert(bag.count((p, c)) > 0);
                                let k = choose|k: int|
                                    0 <= k < before.len() && (#[trigger] before[k]).0@ == c;
                                assert(after[k].0@ == c);
                            }
                        }
                    }
                }
            },
            None => {
                let i: usize = self.entries.len();
                let mut counts: Vec<(String, u32)> = Vec::new();
                counts.push((word, n));
                proof {
                    assert(old(self)@.count((p, w)) == 0);
                    assert(counts@[0].0@ == w);
                    assert(lists(counts@, w));
                }
                self.entries.push(ContextEntry { phrase: phrase.clone(), counts });
                self.index.insert(phrase, i);
                self.bag = Ghost(new_bag);
            },
        }
    }
}

/// `bag` with `n` more pairs of `phrase` and `word`, as far as a counter reaches.
pub open spec fn added(
    bag: Multiset<(Seq<char>, Seq<char>)>,
    phrase: Seq<char>,
    word: Seq<char>,
    n: nat,
) -> Multiset<(Seq<char>, Seq<char>)> {
    bag.update((phrase, word), counted(bag.count((phrase, word)) + n) as nat)
}

/// What adding does: the word of that phrase counts so many more, up to the largest number, and no
/// other changes.
pub proof fn law_added_counts(
    bag: Multiset<(Seq<char>, Seq<char>)>,
    phrase: Seq<char>,
    word: Seq<char>,
    n: nat,
    other: (Seq<char>, Seq<char>),
)
    ensures
        bag.count((phrase, word)) + n <= u32::MAX ==> added(bag, phrase, word, n).count((phrase, word))
            == bag.count((phrase, word)) + n,
        bag.count((phrase, word)) + n > u32::MAX ==> added(bag, phrase, word, n).count((phrase, word))
            == u32::MAX,
        other != (phrase, word) ==> added(bag, phrase, word, n).count(other) == bag.count(other),
{
    broadcast use {vstd::multiset::lemma_update_same, vstd::multiset::lemma_update_different};

}

/// What the table lists: each word of each phrase once, as often as it was added, and nothing else.
pub proof fn law_contexts_listed(t: ContextTable, i: int, j: int, phrase: Seq<char>, word: Seq<char>)
    requires
        t.wf(),
    ensures
        0 <= i < t.entries@.len() && 0 <= j < t.entries@[i].counts@.len() ==> {
            let c = t.entries@[i].counts@[j];
            c.1 > 0 && c.1 == t@.count((t.entries@[i].phrase@, c.0@))
        },
        t@.count((phrase, word)) > 0 ==> exists|a: int, b: int|
            {
                &&& 0 <= a < t.entries@.len()
                &&& 0 <= b < t.entries@[a].counts@.len()
                &&& t.entries@[a].phrase@ == phrase
                &&& (#[trigger] t.entries@[a].counts@[b]).0@ == word
            },
{
    if 0 <= i < t.entries@.len() && 0 <= j < t.entries@[i].counts@.len() {
        assert(counts_match(t.entries@[i].counts@, t.entries@[i].phrase@, t@));
        assert(t.entries@[i].counts@[j].1 > 0);
    }
    if t@.count((phrase, word)) > 0 {
        assert(t.index@.contains_key(phrase));
        let a = t.index@[phrase] as int;
        assert(t.entries@[a].phrase@ == phrase);
        assert(counts_match(t.entries@[a].counts@, t.entries@[a].phrase@, t@));
        assert(lists(t.entries@[a].counts@, word));
        let b = choose|b: int|
            0 <= b < t.entries@[a].counts@.len() && (#[trigger] t.entries@[a].counts@[b]).0@ == word;
        assert(t.entries@[a].counts@[b].0@ == word);
    }
}

} // verus!
