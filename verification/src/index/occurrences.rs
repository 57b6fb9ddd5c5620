//! The occurrences of phrases in files, and the tables that sum them up.

use fxhash::{FxHashMap, FxHasher};
use std::collections::HashMap;
use std::hash::{Hash, Hasher};
use vstd::prelude::*;

use crate::order::{keeps_order, lemma_filter_keeps};

verus! {

broadcast use {vstd::seq::group_seq_axioms, vstd::std_specs::hash::group_hash_axioms};

/// One occurrence of a phrase in a file.
pub struct Occ {
    /// The hash of the phrase.
    pub key: u64,
    /// The file that it stands in.
    pub file: i64,
    /// The phrase.
    pub phrase: Seq<char>,
    /// The line that it stands in, counted from 0.
    pub line: int,
    /// The zone of that line.
    pub zone: int,
    /// It stands in code and where a definition would put it.
    pub is_def: bool,
    /// The word before it, if there is one.
    pub context: Option<Seq<char>>,
}

/// The occurrences of one phrase in one file, summed up.
#[derive(Clone, Copy, Debug, PartialEq, Eq, Structural)]
pub struct OccEntry {
    /// 1 if the file defines the phrase, else 0.
    pub is_def: i32,
    /// 0 if the phrase occurs in code, else 1.
    pub zone: i32,
    /// How often the phrase occurs.
    pub count: u32,
    /// The line of the first occurrence, counted from 0.
    pub first_line: usize,
}

/// The hash of a phrase and the file that it occurs in.
pub type OccKey = (u64, i64);

// ---------------------------------------------------------------------------------------------
// Outside items
// ---------------------------------------------------------------------------------------------
/// The Fx hasher, whose state is of no concern here.
#[verifier::external_type_specification]
#[verifier::external_body]
pub struct ExFxHasher(FxHasher);

/// What makes the hashers of a hash map, whose state is of no concern here.
#[verifier::external_type_specification]
#[verifier::external_body]
#[verifier::reject_recursive_types(H)]
pub struct ExBuildHasherDefault<H>(std::hash::BuildHasherDefault<H>);

/// A hash map, with the Fx hasher, from phrases in files to their occurrences.
pub type OccMap = FxHashMap<OccKey, OccEntry>;

/// What an occurrence map holds.
pub uninterp spec fn occ_table(m: OccMap) -> Map<OccKey, OccEntry>;

/// `FxHashMap::default` makes a map that holds nothing.
#[verifier::external_body]
fn occ_new() -> (m: OccMap)
    ensures
        occ_table(m).is_empty(),
{
    OccMap::default()
}

/// `FxHashMap::get` gives what the map holds for a key, if it holds something.
#[verifier::external_body]
fn occ_get(m: &OccMap, k: OccKey) -> (r: Option<OccEntry>)
    ensures
        r == occ_table(*m).get(k),
{
    m.get(&k).copied()
}

/// `FxHashMap::insert` lets the map hold `v` for the key `k`, whatever it held for it before.
#[verifier::external_body]
fn occ_insert(m: &mut OccMap, k: OccKey, v: OccEntry)
    ensures
        occ_table(*final(m)) == occ_table(*old(m)).insert(k, v),
{
    m.insert(k, v);
}

/// `items` lists each key of `t` once, with what `t` holds for it.
pub open spec fn lists_table(items: Seq<(OccKey, OccEntry)>, t: Map<OccKey, OccEntry>) -> bool {
    &&& forall|i: int, j: int|
        0 <= i < j < items.len() ==> (#[trigger] items[i]).0 != (#[trigger] items[j]).0
    &&& forall|i: int|
        0 <= i < items.len() ==> t.contains_key((#[trigger] items[i]).0) && t[items[i].0]
            == items[i].1
    &&& forall|k: OccKey| #[trigger] t.contains_key(k) ==> exists|i: int|
        0 <= i < items.len() && (#[trigger] items[i]).0 == k
}

/// `FxHashMap::into_iter` hands out each key that the map holds once, with what it holds for it.
/// In which order is not stated.
#[verifier::external_body]
pub(crate) fn occ_items(m: OccMap) -> (items: Vec<(OccKey, OccEntry)>)
    ensures
        lists_table(items@, occ_table(m)),
{
    m.into_iter().collect()
}

/// The Fx hash of a phrase on a machine whose words have `word_bits` bits and the given byte order.
pub uninterp spec fn fx_hash_of(phrase: Seq<char>, word_bits: int, little_endian: bool) -> u64;

/// `FxHasher`, fed with a string, gives a hash that depends on the string, on the width of the
/// machine's words and on their byte order. Which byte order the machine has is not stated.
#[verifier::external_body]
pub(crate) fn phrase_hash(s: &str) -> (r: u64)
    ensures
        exists|little: bool| r == #[trigger] fx_hash_of(s@, usize::BITS as int, little),
{
    let mut h = FxHasher::default();
    s.hash(&mut h);
    h.finish()
}

/// `key` is the hash of `phrase` on a machine of this word width.
pub open spec fn is_hash(key: u64, phrase: Seq<char>) -> bool {
    exists|little: bool| key == #[trigger] fx_hash_of(phrase, usize::BITS as int, little)
}

// ---------------------------------------------------------------------------------------------
// Tables
// ---------------------------------------------------------------------------------------------
/// The occurrences of the phrase with the hash `key`.
pub open spec fn of_phrase(h: Seq<Occ>, key: u64) -> Seq<Occ> {
    h.filter(|o: Occ| o.key == key)
}

/// The occurrences of the phrase with the hash `k.0` in the file `k.1`.
pub open spec fn in_file(h: Seq<Occ>, k: OccKey) -> Seq<Occ> {
    h.filter(|o: Occ| (o.key, o.file) == k)
}

/// A number of occurrences as far as a counter reaches.
pub open spec fn counted(n: nat) -> u32 {
    if n <= u32::MAX {
        n as u32
    } else {
        u32::MAX
    }
}

/// The occurrences `hits` of one phrase in one file, of which there is at least one, summed up.
pub open spec fn summary(hits: Seq<Occ>) -> OccEntry {
    OccEntry {
        is_def: if exists|i: int| 0 <= i < hits.len() && (#[trigger] hits[i]).is_def {
            1
        } else {
            0
        },
        zone: if exists|i: int| 0 <= i < hits.len() && (#[trigger] hits[i]).zone == 0 {
            0
        } else {
            1
        },
        count: counted(hits.len()),
        first_line: hits[0].line as usize,
    }
}

/// `t` holds for each phrase that occurs in a file the summary of its occurrences there, and
/// nothing else.
pub open spec fn sums_up(t: Map<OccKey, OccEntry>, h: Seq<Occ>) -> bool {
    forall|k: OccKey|
        {
            &&& #[trigger] t.contains_key(k) <==> in_file(h, k).len() > 0
            &&& t.contains_key(k) ==> t[k] == summary(in_file(h, k))
        }
}

/// A phrase that was seen.
pub struct PhraseEntry {
    /// The hash of the phrase.
    pub key: u64,
    /// The phrase, in the form in which it was first seen.
    pub text: String,
    /// How often it was seen.
    pub seen: u32,
}

/// What a sequence of occurrences comes to: for each phrase and file a summary, and for each
/// phrase its text and how often it was seen. The view is the sequence of occurrences.
pub struct PhraseTables {
    pub occs: OccMap,
    pub phrases: Vec<PhraseEntry>,
    pub index: HashMap<u64, usize>,
    pub history: Ghost<Seq<Occ>>,
}

impl View for PhraseTables {
    type V = Seq<Occ>;

    open spec fn view(&self) -> Seq<Occ> {
        self.history@
    }
}

/// The entry `e` tells what `h` holds of its phrase.
pub open spec fn tells(e: PhraseEntry, h: Seq<Occ>) -> bool {
    let hits = of_phrase(h, e.key);
    &&& hits.len() > 0
    &&& e.text@ == hits[0].phrase
    &&& e.seen == counted(hits.len())
}

/// Every line of `h` is one that a text in memory can have, and every zone is 0 or 1.
pub open spec fn plain(h: Seq<Occ>) -> bool {
    forall|i: int|
        0 <= i < h.len() ==> 0 <= (#[trigger] h[i]).line <= usize::MAX && (h[i].zone == 0
            || h[i].zone == 1)
}

impl PhraseTables {
    /// The tables sum up the history.
    pub open spec fn wf(&self) -> bool {
        &&& plain(self@)
        &&& sums_up(occ_table(self.occs), self@)
        &&& forall|k: u64| #[trigger]
            self.index@.contains_key(k) ==> self.index@[k] < self.phrases@.len()
                && self.phrases@[self.index@[k] as int].key == k
        &&& forall|i: int|
            0 <= i < self.phrases@.len() ==> self.index@.contains_key(
                (#[trigger] self.phrases@[i]).key,
            ) && self.index@[self.phrases@[i].key] == i && tells(self.phrases@[i], self@)
        &&& forall|i: int|
            0 <= i < self@.len() ==> self.index@.contains_key((#[trigger] self@[i]).key)
    }

    /// Tables of no occurrences.
    pub fn new() -> (t: PhraseTables)
        ensures
            t.wf(),
            t@ == Seq::<Occ>::empty(),
    {
        let t = PhraseTables {
            occs: occ_new(),
            phrases: Vec::new(),
            index: HashMap::new(),
            history: Ghost(Seq::empty()),
        };
        proof {
            reveal(Seq::filter);
        }
        t
    }

    /// How often the phrase with the hash `key` was seen.
    pub fn seen(&self, key: u64) -> (n: u32)
        requires
            self.wf(),
        ensures
            n == counted(of_phrase(self@, key).len()),
    {
        match self.index.get(&key) {
            Some(i) => self.phrases[*i].seen,
            None => {
                proof {
                    lemma_filter_none(self@, |o: Occ| o.key == key);
                }
                0
            },
        }
    }

    /// Records one more occurrence: that of the phrase `phrase`, whose hash is `key`, in the given
    /// line of the file `file`.
    pub(crate) fn record(
        &mut self,
        key: u64,
        file: i64,
        phrase: &str,
        line: usize,
        zone: u8,
        is_def: bool,
        context: Ghost<Option<Seq<char>>>,
    )
        requires
            old(self).wf(),
            zone <= 1,
        ensures
            final(self).wf(),
            final(self)@ == old(self)@.push(
                (Occ {
                    key,
                    file,
                    phrase: phrase@,
                    line: line as int,
                    zone: zone as int,
                    is_def,
                    context: context@,
                }),
            ),
    {
        let ghost h = self@;
        let ghost o = Occ {
            key,
            file,
            phrase: phrase@,
            line: line as int,
            zone: zone as int,
            is_def,
            context: context@,
        };
        let ghost before = occ_table(self.occs);
        let k: OccKey = (key, file);
        let ghost hits = in_file(h, k);
        let entry = match occ_get(&self.occs, k) {
            Some(e) => OccEntry {
                is_def: if is_def {
                    1
                } else {
                    e.is_def
                },
                zone: if zone == 0 {
                    0
                } else {
                    e.zone
                },
                count: e.count.saturating_add(1),
                first_line: e.first_line,
            },
            None => OccEntry {
                is_def: if is_def {
                    1
                } else {
                    0
                },
                zone: zone as i32,
                count: 1,
                first_line: line,
            },
        };
        occ_insert(&mut self.occs, k, entry);
        self.history = Ghost(h.push(o));
        proof {
            assert(before.contains_key(k) <==> hits.len() > 0);
            lemma_filter_push(h, o, |x: Occ| (x.key, x.file) == k);
            assert(in_file(h.push(o), k) == hits.push(o));
            lemma_summary_push(hits, o);
            assert(entry == summary(hits.push(o)));
            let after = occ_table(self.occs);
            assert forall|j: OccKey|
                {
                    &&& #[trigger] after.contains_key(j) <==> in_file(h.push(o), j).len() > 0
                    &&& after.contains_key(j) ==> after[j] == summary(in_file(h.push(o), j))
                } by {
                lemma_filter_push(h, o, |x: Occ| (x.key, x.file) == j);
                assert(before.contains_key(j) <==> in_file(h, j).len() > 0);
            }
        }
        let ghost old_phrases = self.phrases@;
        match self.index.get(&key) {
            Some(at) => {
                let i: usize = *at;
                let n: u32 = self.phrases[i].seen;
                self.phrases[i].seen = n.saturating_add(1);
                proof {
                    lemma_filter_push(h, o, |x: Occ| x.key == key);
                    assert(tells(old_phrases[i as int], h));
                }
            },
            None => {
                let i: usize = self.phrases.len();
                self.phrases.push(PhraseEntry { key, text: phrase.to_owned(), seen: 1 });
                self.index.insert(key, i);
                proof {
                    lemma_filter_none(h, |x: Occ| x.key == key);
                    lemma_filter_push(h, o, |x: Occ| x.key == key);
                }
            },
        }
        proof {
            assert forall|i: int| 0 <= i < self.phrases@.len() implies tells(
                #[trigger] self.phrases@[i],
                self@,
            ) by {
                let e = self.phrases@[i];
                if e.key != key {
                    lemma_filter_push(h, o, |x: Occ| x.key == e.key);
                    assert(e == old_phrases[i]);
                    assert(tells(old_phrases[i], h));
                }
            }
        }
    }

    /// Adds the occurrences of `other`, which come from other files.
    pub fn merge(&mut self, other: PhraseTables)
        requires
            old(self).wf(),
            other.wf(),
            apart(old(self)@, other@),
        ensures
            final(self).wf(),
            final(self)@ == old(self)@ + other@,
    {
        let ghost a = self@;
        let ghost b = other@;
        let ghost ta = occ_table(self.occs);
        let ghost tb = occ_table(other.occs);
        let items = occ_items(other.occs);
        let mut i: usize = 0;
        while i < items.len()
            invariant
                i <= items@.len(),
                lists_table(items@, tb),
                self.phrases == old(self).phrases,
                self.index == old(self).index,
                self.history == old(self).history,
                forall|k: OccKey| #[trigger]
                    occ_table(self.occs).contains_key(k) <==> (ta.contains_key(k) || exists|j: int|
                        0 <= j < i && (#[trigger] items@[j]).0 == k),
                forall|k: OccKey| #[trigger]
                    ta.contains_key(k) ==> occ_table(self.occs)[k] == ta[k],
                forall|j: int|
                    0 <= j < i && !ta.contains_key((#[trigger] items@[j]).0) ==> occ_table(
                        self.occs,
                    )[items@[j].0] == items@[j].1,
            decreases items@.len() - i,
        {
            let (k, v) = items[i];
            assert(items@[i as int] == (k, v));
            if occ_get(&self.occs, k).is_none() {
                occ_insert(&mut self.occs, k, v);
            }
            i += 1;
        }
        proof {
            lemma_sums_up_merged(a, b, ta, tb, occ_table(self.occs));
        }
        let mut j: usize = 0;
        while j < other.phrases.len()
            invariant
                j <= other.phrases@.len(),
                other.wf(),
                other@ == b,
                self@ == a,
                sums_up(occ_table(self.occs), a + b),
                forall|k: u64| #[trigger]
                    self.index@.contains_key(k) ==> self.index@[k] < self.phrases@.len()
                        && self.phrases@[self.index@[k] as int].key == k,
                forall|p: int|
                    0 <= p < self.phrases@.len() ==> self.index@.contains_key(
                        (#[trigger] self.phrases@[p]).key,
                    ) && self.index@[self.phrases@[p].key] == p,
                forall|p: int|
                    0 <= p < a.len() ==> self.index@.contains_key((#[trigger] a[p]).key),
                forall|q: int|
                    0 <= q < j ==> self.index@.contains_key((#[trigger] other.phrases@[q]).key),
                forall|p: int|
                    0 <= p < self.phrases@.len() ==> if other.index@.contains_key(
                        (#[trigger] self.phrases@[p]).key,
                    ) && other.index@[self.phrases@[p].key] < j {
                        tells(self.phrases@[p], a + b)
                    } else {
                        tells(self.phrases@[p], a)
                    },
            decreases other.phrases@.len() - j,
        {
            let key: u64 = other.phrases[j].key;
            let more: u32 = other.phrases[j].seen;
            let ghost before = self.phrases@;
            proof {
                assert(tells(other.phrases@[j as int], b));
                Seq::filter_distributes_over_add(a, b, |x: Occ| x.key == key);
            }
            match self.index.get(&key) {
                Some(at) => {
                    let p: usize = *at;
                    let n: u32 = self.phrases[p].seen;
                    self.phrases[p].seen = n.saturating_add(more);
                    assert(tells(before[p as int], a));
                },
                None => {
                    let p: usize = self.phrases.len();
                    self.phrases.push(
                        PhraseEntry { key, text: other.phrases[j].text.clone(), seen: more },
                    );
                    self.index.insert(key, p);
                    proof {
                        lemma_filter_none(a, |x: Occ| x.key == key);
                    }
                },
            }
            proof {
                assert forall|p: int| 0 <= p < self.phrases@.len() implies if other.index@.contains_key(
                    (#[trigger] self.phrases@[p]).key,
                ) && other.index@[self.phrases@[p].key] < j + 1 {
                    tells(self.phrases@[p], a + b)
                } else {
                    tells(self.phrases@[p], a)
                } by {
                    if self.phrases@[p].key != key {
                        assert(self.phrases@[p] == before[p]);
                    }
                }
            }
            j += 1;
        }
        self.history = Ghost(a + b);
        proof {
            assert forall|p: int| 0 <= p < self.phrases@.len() implies tells(
                #[trigger] self.phrases@[p],
                a + b,
            ) by {
                let key = self.phrases@[p].key;
                if !other.index@.contains_key(key) {
                    lemma_filter_none(b, |x: Occ| x.key == key);
                    Seq::filter_distributes_over_add(a, b, |x: Occ| x.key == key);
                    assert(of_phrase(a + b, key) =~= of_phrase(a, key));
                }
            }
            assert forall|q: int| 0 <= q < b.len() implies self.index@.contains_key(
                (#[trigger] b[q]).key,
            ) by {
                let at = other.index@[b[q].key];
                assert(self.index@.contains_key(other.phrases@[at as int].key));
            }
        }
    }
}

/// No file of `a` is a file of `b`.
pub open spec fn apart(a: Seq<Occ>, b: Seq<Occ>) -> bool {
    forall|i: int, j: int|
        0 <= i < a.len() && 0 <= j < b.len() ==> (#[trigger] a[i]).file != (#[trigger] b[j]).file
}

/// The union of the tables of two sequences of occurrences from different files is the table of
/// the occurrences of both.
proof fn lemma_sums_up_merged(
    a: Seq<Occ>,
    b: Seq<Occ>,
    ta: Map<OccKey, OccEntry>,
    tb: Map<OccKey, OccEntry>,
    t: Map<OccKey, OccEntry>,
)
    requires
        sums_up(ta, a),
        sums_up(tb, b),
        apart(a, b),
        forall|k: OccKey| #[trigger]
            t.contains_key(k) <==> (ta.contains_key(k) || tb.contains_key(k)),
        forall|k: OccKey| #[trigger] ta.contains_key(k) ==> t[k] == ta[k],
        forall|k: OccKey| #[trigger]
            tb.contains_key(k) && !ta.contains_key(k) ==> t[k] == tb[k],
    ensures
        sums_up(t, a + b),
{
    assert forall|k: OccKey|
        {
            &&& #[trigger] t.contains_key(k) <==> in_file(a + b, k).len() > 0
            &&& t.contains_key(k) ==> t[k] == summary(in_file(a + b, k))
        } by {
        let p = |x: Occ| (x.key, x.file) == k;
        Seq::filter_distributes_over_add(a, b, p);
        assert(ta.contains_key(k) <==> in_file(a, k).len() > 0);
        assert(tb.contains_key(k) <==> in_file(b, k).len() > 0);
        if in_file(a, k).len() > 0 {
            lemma_filter_some(a, p);
            let i = choose|i: int| 0 <= i < a.len() && p(#[trigger] a[i]);
            assert forall|j: int| 0 <= j < b.len() implies !p(#[trigger] b[j]) by {
                assert(a[i].file != b[j].file);
            }
            lemma_filter_none(b, p);
            assert(in_file(a + b, k) =~= in_file(a, k));
        } else {
            assert(in_file(a + b, k) =~= in_file(b, k));
        }
    }
}

/// The tables are determined by the occurrences that went into them: tables that were filled in
/// pieces and merged hold what tables filled in one go hold, for every phrase and file the same
/// summary and for every phrase the same text and the same number.
pub proof fn law_tables_determined(a: PhraseTables, b: PhraseTables)
    requires
        a.wf(),
        b.wf(),
        a@ == b@,
    ensures
        occ_table(a.occs) == occ_table(b.occs),
        a.index@.dom() == b.index@.dom(),
        forall|k: u64| #[trigger]
            a.index@.contains_key(k) ==> {
                let x = a.phrases@[a.index@[k] as int];
                let y = b.phrases@[b.index@[k] as int];
                x.key == k && y.key == k && x.text@ == y.text@ && x.seen == y.seen
            },
{
    let t = occ_table(a.occs);
    let u = occ_table(b.occs);
    assert forall|k: OccKey| #[trigger] t.contains_key(k) == u.contains_key(k) && (t.contains_key(k)
        ==> t[k] == u[k]) by {
        assert(t.contains_key(k) <==> in_file(a@, k).len() > 0);
        assert(u.contains_key(k) <==> in_file(b@, k).len() > 0);
    }
    assert(t =~= u);
    lemma_known_phrases(a, b);
    lemma_known_phrases(b, a);
    assert(a.index@.dom() =~= b.index@.dom());
    assert forall|k: u64| #[trigger] a.index@.contains_key(k) implies {
        let x = a.phrases@[a.index@[k] as int];
        let y = b.phrases@[b.index@[k] as int];
        x.key == k && y.key == k && x.text@ == y.text@ && x.seen == y.seen
    } by {
        assert(b.index@.contains_key(k));
        assert(tells(a.phrases@[a.index@[k] as int], a@));
        assert(tells(b.phrases@[b.index@[k] as int], b@));
    }
}

/// The occurrences of the word `w` in the file `f`.
pub open spec fn word_in(h: Seq<Occ>, w: Seq<char>, f: i64) -> Seq<Occ> {
    h.filter(|o: Occ| o.phrase == w && o.file == f)
}

/// The hashes tell the words apart: two occurrences have the same hash exactly where they are of
/// the same word.
pub open spec fn keys_tell(h: Seq<Occ>) -> bool {
    forall|i: int, j: int|
        0 <= i < h.len() && 0 <= j < h.len() ==> ((#[trigger] h[i]).key == (#[trigger] h[j]).key
            <==> h[i].phrase == h[j].phrase)
}

/// Where the hashes tell the words apart, what the table holds of a phrase in a file is how often
/// the word occurs there and the line of its first occurrence.
pub proof fn law_row_counts_word(t: Map<OccKey, OccEntry>, h: Seq<Occ>, i: int)
    requires
        sums_up(t, h),
        keys_tell(h),
        0 <= i < h.len(),
    ensures
        ({
            let k = (h[i].key, h[i].file);
            let hits = word_in(h, h[i].phrase, h[i].file);
            &&& hits.len() > 0
            &&& t.contains_key(k)
            &&& t[k].count == counted(hits.len())
            &&& t[k].first_line == hits[0].line as usize
        }),
{
    let k = (h[i].key, h[i].file);
    let p = |o: Occ| (o.key, o.file) == k;
    let q = |o: Occ| o.phrase == h[i].phrase && o.file == h[i].file;
    assert forall|j: int| 0 <= j < h.len() implies p(#[trigger] h[j]) == q(h[j]) by {
        assert(h[i].key == h[j].key <==> h[i].phrase == h[j].phrase);
    }
    lemma_filter_same(h, p, q);
    if h.filter(p).len() == 0 {
        lemma_filter_empty(h, p, i);
    }
    assert(t.contains_key(k) <==> in_file(h, k).len() > 0);
}

/// Filters that agree on a sequence keep the same of it.
pub proof fn lemma_filter_same<T>(s: Seq<T>, p: spec_fn(T) -> bool, q: spec_fn(T) -> bool)
    requires
        forall|i: int| 0 <= i < s.len() ==> p(#[trigger] s[i]) == q(s[i]),
    ensures
        s.filter(p) == s.filter(q),
    decreases s.len(),
{
    reveal(Seq::filter);
    if s.len() > 0 {
        lemma_filter_same(s.drop_last(), p, q);
    }
}

/// A phrase that one of two tables of the same occurrences knows is known to the other.
proof fn lemma_known_phrases(a: PhraseTables, b: PhraseTables)
    requires
        a.wf(),
        b.wf(),
        a@ == b@,
    ensures
        forall|k: u64| #[trigger] a.index@.contains_key(k) ==> b.index@.contains_key(k),
{
    assert forall|k: u64| #[trigger] a.index@.contains_key(k) implies b.index@.contains_key(k) by {
        assert(tells(a.phrases@[a.index@[k] as int], a@));
        lemma_filter_some(a@, |o: Occ| o.key == k);
        let i = choose|i: int| 0 <= i < a@.len() && (|o: Occ| o.key == k)(#[trigger] a@[i]);
        assert(b.index@.contains_key(b@[i].key));
    }
}

/// In which order the workers' results are merged makes no difference to the summaries, since no
/// two workers read the same file.
pub proof fn law_merge_order(
    a: Seq<Occ>,
    b: Seq<Occ>,
    t: Map<OccKey, OccEntry>,
    u: Map<OccKey, OccEntry>,
)
    requires
        apart(a, b),
        sums_up(t, a + b),
        sums_up(u, b + a),
    ensures
        t == u,
{
    assert forall|k: OccKey| #[trigger] t.contains_key(k) == u.contains_key(k) && (t.contains_key(k)
        ==> t[k] == u[k]) by {
        let p = |x: Occ| (x.key, x.file) == k;
        Seq::filter_distributes_over_add(a, b, p);
        Seq::filter_distributes_over_add(b, a, p);
        assert(t.contains_key(k) <==> in_file(a + b, k).len() > 0);
        assert(u.contains_key(k) <==> in_file(b + a, k).len() > 0);
        if in_file(a, k).len() > 0 {
            lemma_filter_some(a, p);
            let i = choose|i: int| 0 <= i < a.len() && p(#[trigger] a[i]);
            assert forall|j: int| 0 <= j < b.len() implies !p(#[trigger] b[j]) by {
                assert(a[i].file != b[j].file);
            }
            lemma_filter_none(b, p);
        }
        assert(in_file(a + b, k) =~= in_file(b + a, k));
    }
    assert(t =~= u);
}

/// A filter that keeps something is satisfied by something.
pub proof fn lemma_filter_some<T>(s: Seq<T>, p: spec_fn(T) -> bool)
    requires
        s.filter(p).len() > 0,
    ensures
        exists|i: int| 0 <= i < s.len() && p(#[trigger] s[i]),
{
    if forall|i: int| 0 <= i < s.len() ==> !p(#[trigger] s[i]) {
        lemma_filter_none(s, p);
    }
}

/// One more occurrence in a summary.
proof fn lemma_summary_push(hits: Seq<Occ>, o: Occ)
    ensures
        ({
            let e = summary(hits.push(o));
            &&& e.is_def == if o.is_def {
                1
            } else if hits.len() > 0 {
                summary(hits).is_def as int
            } else {
                0
            }
            &&& e.zone == if o.zone == 0 {
                0
            } else if hits.len() > 0 {
                summary(hits).zone as int
            } else {
                1
            }
            &&& e.count == counted(hits.len() + 1)
            &&& e.first_line == if hits.len() > 0 {
                hits[0].line as usize
            } else {
                o.line as usize
            }
        }),
{
    let all = hits.push(o);
    assert(all[hits.len() as int] == o);
    assert forall|i: int| 0 <= i < hits.len() implies all[i] == hits[i] by {}
    if exists|i: int| 0 <= i < hits.len() && (#[trigger] hits[i]).is_def {
        let i = choose|i: int| 0 <= i < hits.len() && (#[trigger] hits[i]).is_def;
        assert(all[i].is_def);
    }
    if exists|i: int| 0 <= i < hits.len() && (#[trigger] hits[i]).zone == 0 {
        let i = choose|i: int| 0 <= i < hits.len() && (#[trigger] hits[i]).zone == 0;
        assert(all[i].zone == 0);
    }
    if exists|i: int| 0 <= i < all.len() && (#[trigger] all[i]).is_def {
        let i = choose|i: int| 0 <= i < all.len() && (#[trigger] all[i]).is_def;
        if i < hits.len() {
            assert(hits[i].is_def);
        }
    }
    if exists|i: int| 0 <= i < all.len() && (#[trigger] all[i]).zone == 0 {
        let i = choose|i: int| 0 <= i < all.len() && (#[trigger] all[i]).zone == 0;
        if i < hits.len() {
            assert(hits[i].zone == 0);
        }
    }
}

/// A filter keeps nothing of a sequence in which nothing satisfies it.
pub proof fn lemma_filter_none<T>(s: Seq<T>, p: spec_fn(T) -> bool)
    requires
        forall|i: int| 0 <= i < s.len() ==> !p(#[trigger] s[i]),
    ensures
        s.filter(p).len() == 0,
    decreases s.len(),
{
    reveal(Seq::filter);
    if s.len() > 0 {
        lemma_filter_none(s.drop_last(), p);
    }
}

/// A filter keeps what it keeps of a sequence, and the element behind it if that satisfies it.
pub proof fn lemma_filter_push<T>(s: Seq<T>, x: T, p: spec_fn(T) -> bool)
    ensures
        s.push(x).filter(p) == if p(x) {
            s.filter(p).push(x)
        } else {
            s.filter(p)
        },
{
    reveal(Seq::filter);
    assert(s.push(x).drop_last() =~= s);
}

/// A filter that keeps nothing is satisfied by nothing.
pub proof fn lemma_filter_empty<T>(s: Seq<T>, p: spec_fn(T) -> bool, i: int)
    requires
        s.filter(p).len() == 0,
        0 <= i < s.len(),
    ensures
        !p(s[i]),
    decreases s.len(),
{
    reveal(Seq::filter);
    if i < s.len() - 1 {
        lemma_filter_empty(s.drop_last(), p, i);
    }
}

/// What occurrences come to: a definition where one of them is, code where one of them is in code, as
/// many as there are, and the line of the first.
pub proof fn law_summary_of_hits(hits: Seq<Occ>)
    requires
        hits.len() > 0,
        0 <= hits[0].line <= usize::MAX,
    ensures
        summary(hits).is_def == 1 || summary(hits).is_def == 0,
        summary(hits).is_def == 0 <==> forall|i: int| 0 <= i < hits.len() ==> !(#[trigger] hits[i]).is_def,
        summary(hits).zone == 0 || summary(hits).zone == 1,
        summary(hits).zone == 1 <==> forall|i: int|
            0 <= i < hits.len() ==> (#[trigger] hits[i]).zone != 0,
        hits.len() <= u32::MAX ==> summary(hits).count == hits.len(),
        hits.len() > u32::MAX ==> summary(hits).count == u32::MAX,
        summary(hits).first_line == hits[0].line,
{
}

/// The occurrences of a phrase, in all files and in one, are those with its key, all of them and in
/// order.
pub proof fn law_occurrences_of_phrase(h: Seq<Occ>, k: OccKey, o: Occ)
    ensures
        of_phrase(h, k.0).to_multiset().count(o) == if o.key == k.0 {
            h.to_multiset().count(o)
        } else {
            0
        },
        in_file(h, k).to_multiset().count(o) == if o.key == k.0 && o.file == k.1 {
            h.to_multiset().count(o)
        } else {
            0
        },
        keeps_order(of_phrase(h, k.0), h),
        keeps_order(in_file(h, k), h),
{
    lemma_filter_keeps(h, |x: Occ| x.key == k.0);
    lemma_filter_keeps(h, |x: Occ| (x.key, x.file) == k);
}

/// The occurrences of a word in a file are those that read so and stand there, all of them and in
/// order.
pub proof fn law_occurrences_of_word(h: Seq<Occ>, w: Seq<char>, f: i64, o: Occ)
    ensures
        word_in(h, w, f).to_multiset().count(o) == if o.phrase == w && o.file == f {
            h.to_multiset().count(o)
        } else {
            0
        },
        keeps_order(word_in(h, w, f), h),
{
    lemma_filter_keeps(h, |x: Occ| x.phrase == w && x.file == f);
}

/// A count is exact as long as it fits, and the largest number otherwise.
pub proof fn law_counted(n: nat)
    ensures
        n <= u32::MAX ==> counted(n) == n,
        n > u32::MAX ==> counted(n) == u32::MAX,
{
}

/// What the tables say of a phrase that was recorded: it has one entry, in the form in which it was
/// first seen and with the number of its occurrences.
pub proof fn law_phrase_entry(t: PhraseTables, i: int)
    requires
        t.wf(),
        0 <= i < t@.len(),
    ensures
        exists|j: int|
            {
                &&& 0 <= j < t.phrases@.len()
                &&& (#[trigger] t.phrases@[j]).key == t@[i].key
                &&& t.phrases@[j].text@ == of_phrase(t@, t@[i].key)[0].phrase
                &&& t.phrases@[j].seen == counted(of_phrase(t@, t@[i].key).len())
            },
        forall|a: int, b: int|
            0 <= a < b < t.phrases@.len() ==> (#[trigger] t.phrases@[a]).key != (
            #[trigger] t.phrases@[b]).key,
{
    let k = t@[i].key;
    assert(t.index@.contains_key(k));
    let j = t.index@[k] as int;
    assert(t.phrases@[j].key == k);
    assert(tells(t.phrases@[j], t@));
}

} // verus!
