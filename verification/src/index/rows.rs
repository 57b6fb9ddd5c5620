//! The rows of the index: the phrases with their numbers, and for each phrase and file what
//! is stored of it.

use rayon::slice::ParallelSliceMut;
use std::cmp::Ordering;
use std::collections::HashMap;
use vstd::prelude::*;

use super::contexts::ContextTable;
use super::extract::FileStats;
use super::merged::Merged;
use super::occurrences::{
    counted, in_file, is_hash, lemma_filter_none, lemma_filter_push, lists_table, occ_items,
    occ_table, phrase_hash, summary, Occ, OccEntry, OccKey, PhraseEntry, PhraseTables,
};
use super::schema::{pack_flags, pack_line_nos, packed, packed_line};
use crate::lcep::{refine_definition, refined, EntropyBand};
use crate::order::{
    arranges, lemma_text_irreflexive, lemma_text_transitive, reordered, sort, text_before, ByText,
    Ranking,
};
use crate::text::str_eq;
use crate::text_map::TextMap;

verus! {

broadcast use {vstd::seq::group_seq_axioms, vstd::std_specs::hash::group_hash_axioms};

// ---------------------------------------------------------------------------------------------
// Phrases
// ---------------------------------------------------------------------------------------------
/// A phrase that was found.
pub struct PhraseRow {
    /// Its number.
    pub id: i64,
    /// Its hash.
    pub key: u64,
    /// The phrase.
    pub text: String,
    /// The index did not know it.
    pub is_new: bool,
}

/// The phrases that were found, in their order, with their numbers.
pub struct PhraseList {
    pub phrases: Vec<PhraseRow>,
    /// The number of the phrase with a given hash.
    pub ids: HashMap<u64, i64>,
}

impl PhraseList {
    /// The list is sorted, `ids` holds the number of each phrase in it, and no two phrases have the
    /// same number.
    pub open spec fn wf(&self) -> bool {
        &&& forall|i: int, j: int|
            0 <= i < j < self.phrases@.len() ==> {
                let a = (#[trigger] self.phrases@[i]).text@;
                let b = (#[trigger] self.phrases@[j]).text@;
                text_before(a, b) || a == b
            }
        &&& forall|i: int|
            0 <= i < self.phrases@.len() ==> self.ids@.contains_key(
                (#[trigger] self.phrases@[i]).key,
            ) && self.ids@[self.phrases@[i].key] == self.phrases@[i].id
        &&& forall|k: u64| #[trigger]
            self.ids@.contains_key(k) ==> exists|i: int|
                0 <= i < self.phrases@.len() && (#[trigger] self.phrases@[i]).key == k
        &&& forall|i: int, j: int|
            0 <= i < j < self.phrases@.len() ==> (#[trigger] self.phrases@[i]).id != (
            #[trigger] self.phrases@[j]).id
    }
}

/// The hash and the text of each phrase.
pub open spec fn keyed_texts(v: Seq<PhraseEntry>) -> Seq<(u64, Seq<char>)> {
    v.map_values(|e: PhraseEntry| (e.key, e.text@))
}

/// The hash and the text of each phrase that was found.
pub open spec fn found_texts(v: Seq<PhraseRow>) -> Seq<(u64, Seq<char>)> {
    v.map_values(|p: PhraseRow| (p.key, p.text@))
}

/// The phrases that an index knows have different numbers, none of them over `max_id`.
pub open spec fn numbers_ok(known: Map<Seq<char>, i64>, max_id: int) -> bool {
    &&& forall|a: Seq<char>| #[trigger] known.contains_key(a) ==> known[a] <= max_id
    &&& forall|a: Seq<char>, b: Seq<char>|
        #[trigger] known.contains_key(a) && #[trigger] known.contains_key(b) && a != b ==> known[a]
            != known[b]
}

/// The phrase at `i` of a sorted list is one that the index knows. Of equal ones that stand side by
/// side only the first counts.
pub open spec fn takes_known(
    list: Seq<PhraseRow>,
    known: Map<Seq<char>, i64>,
    i: int,
) -> bool {
    known.contains_key(list[i].text@) && (i == 0 || list[i - 1].text@ != list[i].text@)
}

/// How many of the first `n` phrases of a sorted list the index does not know.
pub open spec fn new_phrases(list: Seq<PhraseRow>, known: Map<Seq<char>, i64>, n: int) -> nat
    decreases n,
{
    if n <= 0 {
        0
    } else {
        new_phrases(list, known, n - 1) + if takes_known(list, known, n - 1) {
            0nat
        } else {
            1nat
        }
    }
}

/// The number of the phrase at `i` of a sorted list: the one that it has in the index, or else the
/// next one over `max_id` that is not taken by a phrase before it.
pub open spec fn phrase_id(
    list: Seq<PhraseRow>,
    known: Map<Seq<char>, i64>,
    max_id: int,
    i: int,
) -> int {
    if takes_known(list, known, i) {
        known[list[i].text@] as int
    } else {
        max_id + 1 + new_phrases(list, known, i)
    }
}

/// The phrases of a sorted list are numbered: those that the index knows keep their numbers, the
/// others get the numbers over `max_id` in order.
pub open spec fn is_numbered(
    list: Seq<PhraseRow>,
    known: Map<Seq<char>, i64>,
    max_id: int,
) -> bool {
    forall|i: int|
        0 <= i < list.len() ==> (#[trigger] list[i]).id == phrase_id(list, known, max_id, i)
            && list[i].is_new == !takes_known(list, known, i)
}

/// What comes before a place of a list decides its number.
proof fn lemma_new_phrases_prefix(
    a: Seq<PhraseRow>,
    b: Seq<PhraseRow>,
    known: Map<Seq<char>, i64>,
    n: int,
)
    requires
        0 <= n <= a.len(),
        n <= b.len(),
        forall|i: int| 0 <= i < n ==> (#[trigger] a[i]).text@ == b[i].text@,
    ensures
        new_phrases(a, known, n) == new_phrases(b, known, n),
        new_phrases(a, known, n) <= n,
    decreases n,
{
    if n > 0 {
        lemma_new_phrases_prefix(a, b, known, n - 1);
        assert(a[n - 1].text@ == b[n - 1].text@);
        if n > 1 {
            assert(a[n - 2].text@ == b[n - 2].text@);
        }
    }
}

/// Further on in a list, no fewer phrases are new.
proof fn lemma_new_phrases_grow(
    list: Seq<PhraseRow>,
    known: Map<Seq<char>, i64>,
    m: int,
    n: int,
)
    requires
        0 <= m <= n,
    ensures
        new_phrases(list, known, m) <= new_phrases(list, known, n),
    decreases n - m,
{
    if m < n {
        lemma_new_phrases_grow(list, known, m, n - 1);
    }
}

/// Numbered phrases have different numbers.
pub proof fn law_phrase_ids_distinct(
    list: Seq<PhraseRow>,
    known: Map<Seq<char>, i64>,
    max_id: int,
    i: int,
    j: int,
)
    requires
        numbers_ok(known, max_id),
        is_numbered(list, known, max_id),
        forall|a: int, b: int|
            0 <= a < b < list.len() ==> {
                let x = (#[trigger] list[a]).text@;
                let y = (#[trigger] list[b]).text@;
                text_before(x, y) || x == y
            },
        0 <= i < j < list.len(),
    ensures
        list[i].id != list[j].id,
{
    assert(list[i].id == phrase_id(list, known, max_id, i));
    assert(list[j].id == phrase_id(list, known, max_id, j));
    if takes_known(list, known, i) && takes_known(list, known, j) {
        if list[i].text@ == list[j].text@ {
            lemma_equal_side_by_side(list, i, j);
        }
    } else if !takes_known(list, known, i) && !takes_known(list, known, j) {
        lemma_new_phrases_grow(list, known, i + 1, j);
    }
}

/// Equal phrases of a sorted list stand side by side.
proof fn lemma_equal_side_by_side(list: Seq<PhraseRow>, i: int, j: int)
    requires
        forall|a: int, b: int|
            0 <= a < b < list.len() ==> {
                let x = (#[trigger] list[a]).text@;
                let y = (#[trigger] list[b]).text@;
                text_before(x, y) || x == y
            },
        0 <= i < j < list.len(),
        list[i].text@ == list[j].text@,
    ensures
        list[j - 1].text@ == list[j].text@,
{
    let x = list[i].text@;
    let z = list[j - 1].text@;
    if i < j - 1 && z != x {
        assert(text_before(x, z) || x == z);
        assert(text_before(z, list[j].text@) || z == list[j].text@);
        lemma_text_transitive(x, z, x);
        lemma_text_irreflexive(x);
    }
}

/// One more phrase behind numbered ones.
proof fn lemma_numbered_push(
    list: Seq<PhraseRow>,
    x: PhraseRow,
    known: Map<Seq<char>, i64>,
    max_id: int,
)
    requires
        is_numbered(list, known, max_id),
        ({
            let n = list.len() as int;
            let taken = known.contains_key(x.text@) && (n == 0 || list[n - 1].text@ != x.text@);
            &&& x.is_new == !taken
            &&& x.id == if taken {
                known[x.text@] as int
            } else {
                max_id + 1 + new_phrases(list, known, n)
            }
        }),
    ensures
        is_numbered(list.push(x), known, max_id),
        ({
            let n = list.len() as int;
            &&& new_phrases(list.push(x), known, n + 1) == new_phrases(list, known, n)
                + if x.is_new {
                1nat
            } else {
                0nat
            }
            &&& new_phrases(list.push(x), known, n + 1) <= n + 1
        }),
{
    let all = list.push(x);
    let n = list.len() as int;
    assert forall|i: int| 0 <= i < all.len() implies (#[trigger] all[i]).id == phrase_id(
        all,
        known,
        max_id,
        i,
    ) && all[i].is_new == !takes_known(all, known, i) by {
        lemma_new_phrases_prefix(list, all, known, i);
        if i < n {
            assert(list[i].id == phrase_id(list, known, max_id, i));
            assert(takes_known(list, known, i) == takes_known(all, known, i));
        }
    }
    lemma_new_phrases_prefix(list, all, known, n);
    assert(all[n] == x);
}

/// The numbers of the phrases by their hashes.
fn ids_of(phrases: &Vec<PhraseRow>) -> (ids: HashMap<u64, i64>)
    requires
        forall|a: int, b: int|
            0 <= a < b < phrases@.len() ==> (#[trigger] phrases@[a]).key != (
            #[trigger] phrases@[b]).key,
    ensures
        forall|k: int|
            0 <= k < phrases@.len() ==> ids@.contains_key((#[trigger] phrases@[k]).key)
                && ids@[phrases@[k].key] == phrases@[k].id,
        forall|k: u64| #[trigger]
            ids@.contains_key(k) ==> exists|i: int|
                0 <= i < phrases@.len() && (#[trigger] phrases@[i]).key == k,
{
    let mut ids: HashMap<u64, i64> = HashMap::new();
    let mut j: usize = 0;
    while j < phrases.len()
        invariant
            j <= phrases@.len(),
            forall|a: int, b: int|
                0 <= a < b < phrases@.len() ==> (#[trigger] phrases@[a]).key != (
                #[trigger] phrases@[b]).key,
            forall|k: int|
                0 <= k < j ==> ids@.contains_key((#[trigger] phrases@[k]).key)
                    && ids@[phrases@[k].key] == phrases@[k].id,
            forall|k: u64| #[trigger]
                ids@.contains_key(k) ==> exists|i: int|
                    0 <= i < j && (#[trigger] phrases@[i]).key == k,
        decreases phrases@.len() - j,
    {
        let ghost before = ids@;
        let key: u64 = phrases[j].key;
        ids.insert(key, phrases[j].id);
        proof {
            assert forall|k: u64| #[trigger] ids@.contains_key(k) implies exists|i: int|
                0 <= i < j + 1 && (#[trigger] phrases@[i]).key == k by {
                if k == key {
                    assert(phrases@[j as int].key == k);
                } else {
                    assert(before.contains_key(k));
                }
            }
        }
        j += 1;
    }
    ids
}

/// Sorts the phrases by their text and numbers them. `known` holds the numbers of the phrases that
/// the index knows, of which none is over `max_id`.
pub fn number_phrases(entries: &Vec<PhraseEntry>, known: &TextMap<i64>, max_id: i64) -> (l:
    PhraseList)
    requires
        forall|i: int, j: int|
            0 <= i < j < entries@.len() ==> (#[trigger] entries@[i]).key != (
            #[trigger] entries@[j]).key,
        known.wf(),
        numbers_ok(known@, max_id as int),
        max_id + entries@.len() < i64::MAX,
    ensures
        l.wf(),
        reordered(found_texts(l.phrases@), keyed_texts(entries@)),
        is_numbered(l.phrases@, known@, max_id as int),
{
    let mut texts: Vec<String> = Vec::new();
    let mut i: usize = 0;
    while i < entries.len()
        invariant
            i <= entries@.len(),
            texts@.len() == i,
            forall|k: int| 0 <= k < i ==> (#[trigger] texts@[k])@ == entries@[k].text@,
        decreases entries@.len() - i,
    {
        texts.push(entries[i].text.clone());
        i += 1;
    }
    let n: usize = texts.len();
    let by = ByText { texts };
    let order = sort(&by, n);
    let mut phrases: Vec<PhraseRow> = Vec::new();
    let mut next: i64 = max_id + 1;
    let mut j: usize = 0;
    while j < n
        invariant
            j <= n,
            n == by.texts@.len() == entries@.len(),
            known.wf(),
            max_id + n < i64::MAX,
            arranges(order@, 0, n as int),
            phrases@.len() == j,
            next == max_id + 1 + new_phrases(phrases@, known@, j as int),
            new_phrases(phrases@, known@, j as int) <= j,
            is_numbered(phrases@, known@, max_id as int),
            forall|k: int|
                0 <= k < j ==> (#[trigger] phrases@[k]).key == entries@[order@[k] as int].key
                    && phrases@[k].text@ == entries@[order@[k] as int].text@,
        decreases n - j,
    {
        let at: usize = order[j];
        let ghost before = phrases@;
        let again = j > 0 && str_eq(phrases[j - 1].text.as_str(), entries[at].text.as_str());
        let had: Option<i64> = match known.get(entries[at].text.as_str()) {
            Some(id) => if again {
                None
            } else {
                Some(*id)
            },
            None => None,
        };
        let (id, is_new): (i64, bool) = match had {
            Some(id) => (id, false),
            None => (next, true),
        };
        if is_new {
            next = next + 1;
        }
        let row = PhraseRow { id, key: entries[at].key, text: entries[at].text.clone(), is_new };
        proof {
            lemma_numbered_push(before, row, known@, max_id as int);
        }
        phrases.push(row);
        j += 1;
    }
    proof {
        assert forall|a: int, b: int| 0 <= a < b < phrases@.len() implies (
        #[trigger] phrases@[a]).key != (#[trigger] phrases@[b]).key by {
            let x = order@[a] as int;
            let y = order@[b] as int;
            assert(x != y);
            if x < y {
                assert(entries@[x].key != entries@[y].key);
            } else {
                assert(entries@[y].key != entries@[x].key);
            }
        }
    }
    let ids = ids_of(&phrases);
    let l = PhraseList { phrases, ids };
    proof {
        assert forall|a: int, b: int| 0 <= a < b < l.phrases@.len() implies {
            let x = (#[trigger] l.phrases@[a]).text@;
            let y = (#[trigger] l.phrases@[b]).text@;
            text_before(x, y) || x == y
        } by {
            assert(by.before(order@[a] as int, order@[b] as int));
            assert(by.texts@[order@[a] as int]@ == entries@[order@[a] as int].text@);
            assert(by.texts@[order@[b] as int]@ == entries@[order@[b] as int].text@);
        }
        assert forall|a: int, b: int| 0 <= a < b < l.phrases@.len() implies (
        #[trigger] l.phrases@[a]).id != (#[trigger] l.phrases@[b]).id by {
            law_phrase_ids_distinct(l.phrases@, known@, max_id as int, a, b);
        }
        let v = found_texts(l.phrases@);
        let w = keyed_texts(entries@);
        assert(arranges(order@, 0, w.len() as int));
        assert forall|k: int| 0 <= k < v.len() implies #[trigger] v[k] == w[order@[k] as int] by {
            assert(l.phrases@[k].key == entries@[order@[k] as int].key);
        }
    }
    l
}

// ---------------------------------------------------------------------------------------------
// Rows
// ---------------------------------------------------------------------------------------------
/// The number of a phrase and the file that it occurs in.
pub type RowKey = (i64, i64);

/// A phrase in a file, with the hash of the phrase and what its occurrences there come to.
pub type Row = (RowKey, u64, OccEntry);

/// `a` comes before `b`: by phrase, and then by file.
pub open spec fn key_before(a: RowKey, b: RowKey) -> bool {
    a.0 < b.0 || (a.0 == b.0 && a.1 < b.1)
}

/// The order of two rows.
fn row_order(a: &Row, b: &Row) -> (r: Ordering)
    ensures
        r == Ordering::Less <==> key_before(a.0, b.0),
        r == Ordering::Equal <==> a.0 == b.0,
        r == Ordering::Greater <==> key_before(b.0, a.0),
{
    if a.0.0 < b.0.0 {
        Ordering::Less
    } else if a.0.0 > b.0.0 {
        Ordering::Greater
    } else if a.0.1 < b.0.1 {
        Ordering::Less
    } else if a.0.1 > b.0.1 {
        Ordering::Greater
    } else {
        Ordering::Equal
    }
}

/// `par_sort_unstable_by` reorders a slice so that no element comes after one that follows it, by
/// the order that it is given. Where equal elements go is not stated.
#[verifier::external_body]
fn sort_rows(rows: &mut Vec<Row>)
    ensures
        reordered(final(rows)@, old(rows)@),
        forall|i: int, j: int|
            0 <= i < j < final(rows)@.len() ==> !key_before(
                (#[trigger] final(rows)@[j]).0,
                (#[trigger] final(rows)@[i]).0,
            ),
{
    rows.par_sort_unstable_by(|a, b| row_order(a, b));
}

/// The number that a phrase has in the list, or 0.
pub open spec fn id_of(ids: Map<u64, i64>, key: u64) -> i64 {
    if ids.contains_key(key) {
        ids[key]
    } else {
        0
    }
}

/// The row of one entry of the table of occurrences.
pub open spec fn row_of(t: Map<OccKey, OccEntry>, ids: Map<u64, i64>, k: OccKey) -> Row {
    ((id_of(ids, k.0), k.1), k.0, t[k])
}

/// `r` is the row of an entry of the table of occurrences.
pub open spec fn is_row(r: Row, t: Map<OccKey, OccEntry>, ids: Map<u64, i64>) -> bool {
    exists|k: OccKey| #[trigger] t.contains_key(k) && r == row_of(t, ids, k)
}

/// `rows` holds one row for each entry of the table of occurrences, in the order of their keys.
pub open spec fn are_rows(rows: Seq<Row>, t: Map<OccKey, OccEntry>, ids: Map<u64, i64>) -> bool {
    &&& forall|i: int, j: int|
        0 <= i < j < rows.len() ==> key_before((#[trigger] rows[i]).0, (#[trigger] rows[j]).0)
    &&& forall|i: int| 0 <= i < rows.len() ==> is_row(#[trigger] rows[i], t, ids)
    &&& forall|k: OccKey| #[trigger] t.contains_key(k) ==> rows.contains(row_of(t, ids, k))
}

/// The rows of the index for the given tables, sorted.
fn sorted_rows(tables: PhraseTables, list: &PhraseList) -> (rows: Vec<Row>)
    requires
        tables.wf(),
        list.wf(),
        forall|k: u64| #[trigger] tables.index@.contains_key(k) ==> list.ids@.contains_key(k),
    ensures
        are_rows(rows@, occ_table(tables.occs), list.ids@),
{
    let ghost t = occ_table(tables.occs);
    let ghost ids = list.ids@;
    proof {
        assert forall|k: OccKey| #[trigger] t.contains_key(k) implies ids.contains_key(k.0) by {
            lemma_known_key(tables, k);
        }
    }
    let items = occ_items(tables.occs);
    let mut rows: Vec<Row> = Vec::new();
    let mut i: usize = 0;
    while i < items.len()
        invariant
            i <= items@.len(),
            lists_table(items@, t),
            ids == list.ids@,
            rows@.len() == i,
            forall|j: int| 0 <= j < i ==> #[trigger] rows@[j] == row_of(t, ids, items@[j].0),
        decreases items@.len() - i,
    {
        let (k, e) = items[i];
        let pid: i64 = match list.ids.get(&k.0) {
            Some(id) => *id,
            None => 0,
        };
        rows.push(((pid, k.1), k.0, e));
        assert(items@[i as int] == (k, e));
        i += 1;
    }
    let ghost before = rows@;
    sort_rows(&mut rows);
    proof {
        let p = choose|p: Seq<usize>| #[trigger]
            arranges(p, 0, before.len() as int) && forall|k: int|
                0 <= k < rows@.len() ==> #[trigger] rows@[k] == before[p[k] as int];
        assert forall|a: int, b: int| 0 <= a < b < rows@.len() implies key_before(
            (#[trigger] rows@[a]).0,
            (#[trigger] rows@[b]).0,
        ) by {
            let x = p[a] as int;
            let y = p[b] as int;
            assert(x != y);
            assert(rows@[a] == before[x] && rows@[b] == before[y]);
            let kx = items@[x].0;
            let ky = items@[y].0;
            if x < y {
                assert(items@[x].0 != items@[y].0);
            } else {
                assert(items@[y].0 != items@[x].0);
            }
            assert(t.contains_key(kx) && t.contains_key(ky));
            assert(ids.contains_key(kx.0) && ids.contains_key(ky.0));
            if kx.0 != ky.0 {
                lemma_ids_distinct(*list, kx.0, ky.0);
            }
            assert(rows@[a].0 != rows@[b].0);
            assert(!key_before(rows@[b].0, rows@[a].0));
        }
        assert forall|a: int| 0 <= a < rows@.len() implies is_row(#[trigger] rows@[a], t, ids) by {
            let x = p[a] as int;
            assert(rows@[a] == before[x]);
            assert(t.contains_key(items@[x].0));
        }
        assert forall|k: OccKey| #[trigger] t.contains_key(k) implies rows@.contains(
            row_of(t, ids, k),
        ) by {
            let x = choose|x: int| 0 <= x < items@.len() && (#[trigger] items@[x]).0 == k;
            let xu = x as usize;
            assert(p.contains(xu));
            let a = choose|a: int| 0 <= a < p.len() && p[a] == xu;
            assert(rows@[a] == before[x]);
        }
    }
    rows
}

/// Phrases with different hashes have different numbers.
pub proof fn lemma_ids_distinct(list: PhraseList, a: u64, b: u64)
    requires
        list.wf(),
        list.ids@.contains_key(a),
        list.ids@.contains_key(b),
        a != b,
    ensures
        list.ids@[a] != list.ids@[b],
{
    let i = choose|i: int| 0 <= i < list.phrases@.len() && (#[trigger] list.phrases@[i]).key == a;
    let j = choose|j: int| 0 <= j < list.phrases@.len() && (#[trigger] list.phrases@[j]).key == b;
    if i < j {
        assert(list.phrases@[i].id != list.phrases@[j].id);
    } else {
        assert(list.phrases@[j].id != list.phrases@[i].id);
    }
}

/// A phrase that the table of occurrences knows is among the phrases.
proof fn lemma_known_key(tables: PhraseTables, k: OccKey)
    requires
        tables.wf(),
        occ_table(tables.occs).contains_key(k),
    ensures
        tables.index@.contains_key(k.0),
{
    let h = tables@;
    let p = |o: Occ| (o.key, o.file) == k;
    assert(in_file(h, k).len() > 0);
    if forall|i: int| 0 <= i < h.len() ==> !p(#[trigger] h[i]) {
        lemma_filter_none(h, p);
    }
    let i = choose|i: int| 0 <= i < h.len() && p(#[trigger] h[i]);
    assert(tables.index@.contains_key(h[i].key));
}

// ---------------------------------------------------------------------------------------------
// Scores
// ---------------------------------------------------------------------------------------------
/// A row with the definition score that it is stored with.
#[derive(Clone, Copy, Debug, PartialEq, Eq)]
pub struct ScoredRow {
    /// The number of the phrase and the file.
    pub key: RowKey,
    /// How many files the phrase occurs in.
    pub df: u32,
    /// The definition score.
    pub score: i32,
    /// What the occurrences come to.
    pub entry: OccEntry,
}

/// The rows of the phrase with the number `pid`.
pub open spec fn rows_with(rows: Seq<Row>, pid: i64) -> Seq<Row> {
    rows.filter(|r: Row| r.0.0 == pid)
}

/// How many files the phrase with the number `pid` occurs in: how many rows it has, together with
/// those that the index keeps of it.
pub open spec fn df_of(rows: Seq<Row>, kept: Map<i64, u32>, pid: i64) -> u32 {
    counted(rows_with(rows, pid).len() + count_at(kept, pid) as nat)
}

/// What a map of counts holds for a key, or 0.
pub open spec fn count_at(m: Map<i64, u32>, k: i64) -> u32 {
    if m.contains_key(k) {
        m[k]
    } else {
        0
    }
}

fn count_in_map(m: &HashMap<i64, u32>, k: i64) -> (n: u32)
    ensures
        n == count_at(m@, k),
{
    match m.get(&k) {
        Some(n) => *n,
        None => 0,
    }
}

/// The rows with their scores: each corrected by the entropy of the left contexts of its phrase.
pub open spec fn scored(
    rows: Seq<Row>,
    kept: Map<i64, u32>,
    bands: Map<u64, EntropyBand>,
) -> Seq<ScoredRow> {
    rows.map_values(
        |r: Row|
            ScoredRow {
                key: r.0,
                df: df_of(rows, kept, r.0.0),
                score: refined(
                    r.2.is_def as int,
                    r.2.zone as int,
                    df_of(rows, kept, r.0.0) as int,
                    bands.get(r.1),
                ) as i32,
                entry: r.2,
            },
    )
}

/// The entropies by the hashes of their phrases. Of two with one hash the later one counts.
pub open spec fn keyed_bands(keys: Seq<u64>, bands: Seq<Option<EntropyBand>>) -> Map<
    u64,
    EntropyBand,
>
    decreases keys.len(),
{
    if keys.len() == 0 {
        Map::empty()
    } else {
        let before = keyed_bands(keys.drop_last(), bands);
        match bands[keys.len() - 1] {
            Some(b) => before.insert(keys.last(), b),
            None => before,
        }
    }
}

/// `keys` are the hashes of the phrases that have left contexts.
pub open spec fn context_hashes(keys: Seq<u64>, contexts: ContextTable) -> bool {
    &&& keys.len() == contexts.entries@.len()
    &&& forall|i: int|
        0 <= i < keys.len() ==> is_hash(#[trigger] keys[i], contexts.entries@[i].phrase@)
}

/// The entropies by the hashes of their phrases.
fn bands_by_hash(contexts: &ContextTable, bands: &Vec<Option<EntropyBand>>) -> (r: (
    HashMap<u64, EntropyBand>,
    Ghost<Seq<u64>>,
))
    requires
        bands@.len() == contexts.entries@.len(),
    ensures
        context_hashes(r.1@, *contexts),
        r.0@ == keyed_bands(r.1@, bands@),
{
    let mut m: HashMap<u64, EntropyBand> = HashMap::new();
    let ghost mut keys: Seq<u64> = Seq::empty();
    let mut i: usize = 0;
    while i < contexts.entries.len()
        invariant
            i <= contexts.entries@.len(),
            bands@.len() == contexts.entries@.len(),
            keys.len() == i,
            forall|j: int|
                0 <= j < i ==> is_hash(#[trigger] keys[j], contexts.entries@[j].phrase@),
            m@ == keyed_bands(keys, bands@),
        decreases contexts.entries@.len() - i,
    {
        let key = phrase_hash(contexts.entries[i].phrase.as_str());
        proof {
            assert(keys.push(key).drop_last() =~= keys);
            keys = keys.push(key);
        }
        if let Some(b) = bands[i] {
            m.insert(key, b);
        }
        i += 1;
    }
    (m, Ghost(keys))
}

/// How many files each phrase occurs in. `kept` holds, for each phrase, how many rows the index
/// keeps of it.
fn document_frequencies(rows: &Vec<Row>, kept: &HashMap<i64, u32>) -> (m: HashMap<i64, u32>)
    ensures
        forall|pid: i64| #[trigger]
            m@.contains_key(pid) <==> rows_with(rows@, pid).len() > 0,
        forall|pid: i64| #[trigger] m@.contains_key(pid) ==> m@[pid] == df_of(rows@, kept@, pid),
{
    let mut m: HashMap<i64, u32> = HashMap::new();
    let mut i: usize = 0;
    proof {
        reveal(Seq::filter);
    }
    while i < rows.len()
        invariant
            i <= rows@.len(),
            forall|pid: i64| #[trigger]
                m@.contains_key(pid) <==> rows_with(rows@.take(i as int), pid).len() > 0,
            forall|pid: i64| #[trigger]
                m@.contains_key(pid) ==> m@[pid] == df_of(rows@.take(i as int), kept@, pid),
        decreases rows@.len() - i,
    {
        let ghost before = rows@.take(i as int);
        let pid: i64 = rows[i].0.0;
        let n: u32 = match m.get(&pid) {
            Some(n) => *n,
            None => count_in_map(kept, pid),
        };
        proof {
            assert(rows@.take(i + 1) =~= before.push(rows@[i as int]));
            assert forall|q: i64| #[trigger]
                rows_with(rows@.take(i + 1), q).len() == rows_with(before, q).len() + (if q == pid {
                    1nat
                } else {
                    0nat
                }) by {
                lemma_filter_push(before, rows@[i as int], |r: Row| r.0.0 == q);
            }
        }
        let ghost old_m = m@;
        m.insert(pid, n.saturating_add(1));
        proof {
            assert forall|q: i64| #[trigger] m@.contains_key(q) <==> rows_with(rows@.take(i + 1), q).len() > 0 by {
                assert(old_m.contains_key(q) <==> rows_with(before, q).len() > 0);
            }
            assert forall|q: i64| #[trigger] m@.contains_key(q) implies m@[q] == df_of(
                rows@.take(i + 1),
                kept@,
                q,
            ) by {
                assert(old_m.contains_key(q) <==> rows_with(before, q).len() > 0);
            }
        }
        i += 1;
    }
    assert(rows@.take(i as int) =~= rows@);
    m
}

/// Scores the rows. `kept` holds, for each phrase, how many rows the index keeps of it.
pub fn score_rows(
    rows: &Vec<Row>,
    kept: &HashMap<i64, u32>,
    bands: &HashMap<u64, EntropyBand>,
) -> (r: Vec<ScoredRow>)
    ensures
        r@ == scored(rows@, kept@, bands@),
{
    let dfs = document_frequencies(rows, kept);
    let mut r: Vec<ScoredRow> = Vec::new();
    let mut i: usize = 0;
    while i < rows.len()
        invariant
            i <= rows@.len(),
            forall|pid: i64| #[trigger]
                dfs@.contains_key(pid) <==> rows_with(rows@, pid).len() > 0,
            forall|pid: i64| #[trigger]
                dfs@.contains_key(pid) ==> dfs@[pid] == df_of(rows@, kept@, pid),
            r@ == scored(rows@, kept@, bands@).take(i as int),
        decreases rows@.len() - i,
    {
        let ((pid, fid), key, entry) = rows[i];
        let df: u32 = match dfs.get(&pid) {
            Some(n) => *n,
            None => count_in_map(kept, pid),
        };
        let band: Option<EntropyBand> = match bands.get(&key) {
            Some(b) => Some(*b),
            None => None,
        };
        let score = refine_definition(entry.is_def, entry.zone, df, band);
        r.push(ScoredRow { key: (pid, fid), df, score, entry });
        proof {
            assert(df == df_of(rows@, kept@, pid)) by {
                assert(dfs@.contains_key(pid) <==> rows_with(rows@, pid).len() > 0);
            }
            assert(r@ =~= scored(rows@, kept@, bands@).take(i + 1));
        }
        i += 1;
    }
    assert(scored(rows@, kept@, bands@).take(i as int) =~= scored(rows@, kept@, bands@));
    r
}

/// What the index keeps while the files that changed are read again.
pub struct Kept {
    /// The numbers of the phrases that it knows.
    pub phrases: TextMap<i64>,
    /// The largest of them, or 0.
    pub max_id: i64,
    /// For each of them, in how many files that did not change it occurs.
    pub rows: HashMap<i64, u32>,
    /// The lengths of the files that did not change, in phrases, summed up.
    pub tokens: u64,
    /// How many files did not change and could be read.
    pub files: u64,
}

impl Kept {
    /// The phrases have different numbers, none of them over the largest.
    pub open spec fn wf(&self) -> bool {
        self.phrases.wf() && numbers_ok(self.phrases@, self.max_id as int)
    }

    /// An index that is built anew keeps nothing.
    pub fn nothing() -> (k: Kept)
        ensures
            k.wf(),
            k.phrases@ == Map::<Seq<char>, i64>::empty(),
            k.max_id == 0,
            k.rows@ == Map::<i64, u32>::empty(),
            k.tokens == 0,
            k.files == 0,
    {
        Kept { phrases: TextMap::new(), max_id: 0, rows: HashMap::new(), tokens: 0, files: 0 }
    }
}

/// The phrases and the rows of the index.
pub struct Layout {
    pub list: PhraseList,
    pub rows: Vec<ScoredRow>,
}

/// Lays out the index: numbers the phrases, and puts the rows in order and scores them. `bands`
/// holds, for each phrase that has left contexts, their entropy where there are enough of them.
/// `kept` is what the index keeps: the phrases that it knows keep their numbers, and their rows
/// count for the scores.
pub fn lay_out(m: Merged, bands: &Vec<Option<EntropyBand>>, kept: &Kept) -> (l: Layout)
    requires
        m.wf(),
        kept.wf(),
        kept.max_id + m.tables.phrases@.len() < i64::MAX,
        bands@.len() == m.left_ctx.entries@.len(),
    ensures
        l.list.wf(),
        reordered(found_texts(l.list.phrases@), keyed_texts(m.tables.phrases@)),
        is_numbered(l.list.phrases@, kept.phrases@, kept.max_id as int),
        exists|rows: Seq<Row>, keys: Seq<u64>|
            {
                &&& are_rows(rows, occ_table(m.tables.occs), l.list.ids@)
                &&& context_hashes(keys, m.left_ctx)
                &&& l.rows@ == #[trigger] scored(
                    rows,
                    kept.rows@,
                    #[trigger] keyed_bands(keys, bands@),
                )
            },
        forall|i: int|
            0 <= i < l.rows@.len() ==> 0 <= (#[trigger] l.rows@[i]).score <= 2 && 0
                <= l.rows@[i].entry.zone <= 1 && l.rows@[i].entry.count >= 1,
{
    proof {
        assert forall|i: int, j: int| 0 <= i < j < m.tables.phrases@.len() implies (
        #[trigger] m.tables.phrases@[i]).key != (#[trigger] m.tables.phrases@[j]).key by {
            assert(m.tables.index@[m.tables.phrases@[i].key] == i);
            assert(m.tables.index@[m.tables.phrases@[j].key] == j);
        }
    }
    let list = number_phrases(&m.tables.phrases, &kept.phrases, kept.max_id);
    proof {
        lemma_all_listed(m.tables, list);
    }
    let (by_hash, Ghost(keys)) = bands_by_hash(&m.left_ctx, bands);
    let ghost t = occ_table(m.tables.occs);
    let ghost h = m.tables@;
    let rows = sorted_rows(m.tables, &list);
    let scored_rows = score_rows(&rows, &kept.rows, &by_hash);
    let l = Layout { list, rows: scored_rows };
    proof {
        assert(l.rows@ == scored(rows@, kept.rows@, keyed_bands(keys, bands@)));
        assert forall|i: int| 0 <= i < l.rows@.len() implies 0 <= (#[trigger] l.rows@[i]).score <= 2
            && 0 <= l.rows@[i].entry.zone <= 1 && l.rows@[i].entry.count >= 1 by {
            assert(is_row(rows@[i], t, l.list.ids@));
            let k = choose|k: OccKey| #[trigger]
                t.contains_key(k) && rows@[i] == row_of(t, l.list.ids@, k);
            assert(t[k] == summary(in_file(h, k)));
        }
    }
    l
}

/// Every phrase of the tables is in the list that was made of them.
pub proof fn lemma_all_listed(tables: PhraseTables, list: PhraseList)
    requires
        tables.wf(),
        list.wf(),
        reordered(found_texts(list.phrases@), keyed_texts(tables.phrases@)),
    ensures
        forall|k: u64| #[trigger] tables.index@.contains_key(k) ==> list.ids@.contains_key(k),
{
    let v = found_texts(list.phrases@);
    let w = keyed_texts(tables.phrases@);
    let p = choose|p: Seq<usize>| #[trigger]
        arranges(p, 0, w.len() as int) && forall|k: int|
            0 <= k < v.len() ==> #[trigger] v[k] == w[p[k] as int];
    assert forall|k: u64| #[trigger] tables.index@.contains_key(k) implies list.ids@.contains_key(
        k,
    ) by {
        let x = tables.index@[k];
        assert(p.contains(x));
        let a = choose|a: int| 0 <= a < p.len() && p[a] == x;
        assert(v[a] == w[x as int]);
        assert(list.phrases@[a].key == k);
    }
}

// ---------------------------------------------------------------------------------------------
// Storage
// ---------------------------------------------------------------------------------------------
/// What is stored of a row.
#[derive(Clone, Copy, Debug, PartialEq, Eq)]
pub struct StoredRow {
    /// The number of the phrase.
    pub phrase: i64,
    /// The file.
    pub file: i64,
    /// The definition score, the zone and the count.
    pub flags: u8,
    /// The first line, the low byte first.
    pub line: [u8; 2],
    /// The count, where it does not fit the flags.
    pub overflow: Option<u32>,
}

/// What is stored of a row that occurs 31 times or more besides the flags: its count.
pub open spec fn overflow_of(count: u32) -> Option<u32> {
    if count > 30 {
        Some(count)
    } else {
        None
    }
}

/// Of a line, the two bytes keep what is left of it by the number of lines that they can tell apart.
proof fn lemma_line_wraps(n: int)
    requires
        0 <= n,
    ensures
        packed_line(n % 65536) == packed_line(n),
{
    let q = n / 65536;
    let r = n % 65536;
    assert(n == 256 * (256 * q) + r);
    assert(n % 256 == r % 256);
    assert(n / 256 == 256 * q + r / 256);
    assert(n / 256 % 256 == r / 256 % 256);
    assert(packed_line(r) =~= packed_line(n));
}

/// Packs a row for storage.
pub fn pack_row(r: &ScoredRow) -> (s: StoredRow)
    requires
        r.score < i32::MAX,
    ensures
        s.phrase == r.key.0,
        s.file == r.key.1,
        s.flags == packed(r.score as int, r.entry.zone as int, r.entry.count as int),
        s.line@ == packed_line(r.entry.first_line as int),
        s.overflow == overflow_of(r.entry.count),
{
    let flags = pack_flags(r.score, r.entry.zone, r.entry.count);
    let line = pack_line_nos((r.entry.first_line % 65536) as u32);
    proof {
        lemma_line_wraps(r.entry.first_line as int);
    }
    StoredRow {
        phrase: r.key.0,
        file: r.key.1,
        flags: flags[0],
        line,
        overflow: if r.entry.count > 30 {
            Some(r.entry.count)
        } else {
            None
        },
    }
}

/// No two rows have the same phrase and file.
pub proof fn law_row_keys_distinct(
    rows: Seq<Row>,
    t: Map<OccKey, OccEntry>,
    ids: Map<u64, i64>,
    i: int,
    j: int,
)
    requires
        are_rows(rows, t, ids),
        0 <= i < j < rows.len(),
    ensures
        rows[i].0 != rows[j].0,
{
    assert(key_before(rows[i].0, rows[j].0));
}

// ---------------------------------------------------------------------------------------------
// Files
// ---------------------------------------------------------------------------------------------
/// What is stored of a file as a whole.
#[derive(Clone, Copy, Debug, PartialEq, Eq, Structural)]
pub struct FileRow {
    /// What is known from reading it.
    pub stats: FileStats,
    /// Twice the number of phrases that it defines and that occur in no other file.
    pub unique_defs: u32,
    /// Twice the number of phrases that it defines.
    pub total_defs: u32,
}

/// The row is a definition in the file `file`.
pub open spec fn defines_in(r: ScoredRow, file: i64) -> bool {
    r.key.1 == file && r.score >= 1
}

/// The definitions in the file `file`.
pub open spec fn defs_in(rows: Seq<ScoredRow>, file: i64) -> Seq<ScoredRow> {
    rows.filter(|r: ScoredRow| defines_in(r, file))
}

/// The definitions in the file `file` of phrases that occur in no other file.
pub open spec fn own_defs_in(rows: Seq<ScoredRow>, file: i64) -> Seq<ScoredRow> {
    rows.filter(|r: ScoredRow| defines_in(r, file) && r.df == 1)
}

/// The definitions of each file, and those of phrases that occur in no other file. Each counts
/// twice.
fn def_counts(rows: &Vec<ScoredRow>) -> (r: (HashMap<i64, u32>, HashMap<i64, u32>))
    ensures
        forall|f: i64| #[trigger] count_at(r.0@, f) == counted(2 * defs_in(rows@, f).len()),
        forall|f: i64| #[trigger] count_at(r.1@, f) == counted(2 * own_defs_in(rows@, f).len()),
{
    let mut total: HashMap<i64, u32> = HashMap::new();
    let mut unique: HashMap<i64, u32> = HashMap::new();
    let mut i: usize = 0;
    proof {
        reveal(Seq::filter);
    }
    while i < rows.len()
        invariant
            i <= rows@.len(),
            forall|f: i64| #[trigger]
                count_at(total@, f) == counted(2 * defs_in(rows@.take(i as int), f).len()),
            forall|f: i64| #[trigger]
                count_at(unique@, f) == counted(2 * own_defs_in(rows@.take(i as int), f).len()),
        decreases rows@.len() - i,
    {
        let ghost before = rows@.take(i as int);
        let ghost x = rows@[i as int];
        let ghost (t0, u0) = (total@, unique@);
        let file: i64 = rows[i].key.1;
        if rows[i].score >= 1 {
            let n: u32 = count_in_map(&total, file);
            total.insert(file, n.saturating_add(2));
            if rows[i].df == 1 {
                let m: u32 = count_in_map(&unique, file);
                unique.insert(file, m.saturating_add(2));
            }
        }
        proof {
            assert(rows@.take(i + 1) =~= before.push(x));
            assert forall|f: i64| #[trigger] count_at(total@, f) == counted(
                2 * defs_in(before.push(x), f).len(),
            ) by {
                lemma_filter_push(before, x, |r: ScoredRow| defines_in(r, f));
                assert(count_at(t0, f) == counted(2 * defs_in(before, f).len()));
            }
            assert forall|f: i64| #[trigger] count_at(unique@, f) == counted(
                2 * own_defs_in(before.push(x), f).len(),
            ) by {
                lemma_filter_push(before, x, |r: ScoredRow| defines_in(r, f) && r.df == 1);
                assert(count_at(u0, f) == counted(2 * own_defs_in(before, f).len()));
            }
        }
        i += 1;
    }
    assert(rows@.take(i as int) =~= rows@);
    (total, unique)
}

/// What was found of the file `file` when it was last read. A file that could not be read has nothing
/// in it.
pub open spec fn stats_of(stats: Seq<FileStats>, file: i64) -> FileStats
    decreases stats.len(),
{
    if stats.len() == 0 {
        FileStats { file, token_len: 0, content_len: 0, comment_lines: 0, lines: 0 }
    } else if stats.last().file == file {
        stats.last()
    } else {
        stats_of(stats.drop_last(), file)
    }
}

/// What was found of each of the files.
pub open spec fn stats_of_all(stats: Seq<FileStats>, files: Seq<i64>) -> Seq<FileStats> {
    files.map_values(|f: i64| stats_of(stats, f))
}

/// What was found of each file, by the number of the file.
fn stats_by_file(stats: &Vec<FileStats>) -> (found: HashMap<i64, FileStats>)
    ensures
        forall|f: i64| #[trigger]
            found@.contains_key(f) ==> found@[f] == stats_of(stats@, f),
        forall|f: i64|
            !(#[trigger] found@.contains_key(f)) ==> stats_of(stats@, f) == stats_of(
                Seq::empty(),
                f,
            ),
{
    let mut found: HashMap<i64, FileStats> = HashMap::new();
    let mut i: usize = 0;
    while i < stats.len()
        invariant
            i <= stats@.len(),
            forall|f: i64| #[trigger]
                found@.contains_key(f) ==> found@[f] == stats_of(stats@.take(i as int), f),
            forall|f: i64|
                !(#[trigger] found@.contains_key(f)) ==> stats_of(stats@.take(i as int), f)
                    == stats_of(Seq::empty(), f),
        decreases stats@.len() - i,
    {
        assert(stats@.take(i + 1).drop_last() =~= stats@.take(i as int));
        found.insert(stats[i].file, stats[i]);
        i += 1;
    }
    assert(stats@.take(i as int) =~= stats@);
    found
}

/// The rows of the files that a build was to read: what was found of each, nothing where it could not
/// be read, and how many definitions it has.
pub fn file_rows(files: &Vec<i64>, stats: &Vec<FileStats>, rows: &Vec<ScoredRow>) -> (r: Vec<FileRow>)
    ensures
        r@.len() == files@.len(),
        forall|i: int|
            0 <= i < r@.len() ==> {
                let f = files@[i];
                &&& (#[trigger] r@[i]).stats == stats_of_all(stats@, files@)[i]
                &&& r@[i].unique_defs == counted(2 * own_defs_in(rows@, f).len())
                &&& r@[i].total_defs == counted(2 * defs_in(rows@, f).len())
            },
{
    let (total, unique) = def_counts(rows);
    let found = stats_by_file(stats);
    let mut r: Vec<FileRow> = Vec::new();
    let mut j: usize = 0;
    while j < files.len()
        invariant
            j <= files@.len(),
            r@.len() == j,
            forall|f: i64| #[trigger]
                found@.contains_key(f) ==> found@[f] == stats_of(stats@, f),
            forall|f: i64|
                !(#[trigger] found@.contains_key(f)) ==> stats_of(stats@, f) == stats_of(
                    Seq::empty(),
                    f,
                ),
            forall|f: i64| #[trigger]
                count_at(total@, f) == counted(2 * defs_in(rows@, f).len()),
            forall|f: i64| #[trigger]
                count_at(unique@, f) == counted(2 * own_defs_in(rows@, f).len()),
            forall|k: int|
                0 <= k < j ==> {
                    let f = files@[k];
                    &&& (#[trigger] r@[k]).stats == stats_of(stats@, f)
                    &&& r@[k].unique_defs == counted(2 * own_defs_in(rows@, f).len())
                    &&& r@[k].total_defs == counted(2 * defs_in(rows@, f).len())
                },
        decreases files@.len() - j,
    {
        let f: i64 = files[j];
        let s = match found.get(&f) {
            Some(s) => *s,
            None => FileStats { file: f, token_len: 0, content_len: 0, comment_lines: 0, lines: 0 },
        };
        r.push(
            FileRow {
                stats: s,
                unique_defs: count_in_map(&unique, f),
                total_defs: count_in_map(&total, f),
            },
        );
        j += 1;
    }
    r
}

/// The phrases of all files together, each file counting its own.
pub open spec fn token_sum(stats: Seq<FileStats>) -> nat
    decreases stats.len(),
{
    if stats.len() == 0 {
        0
    } else {
        token_sum(stats.drop_last()) + stats.last().token_len as nat
    }
}

/// The sum and the number whose quotient is the average length of a file, in phrases: over the files
/// that were read and those that the index keeps. The number is at least 1.
pub fn average_len(stats: &Vec<FileStats>, kept: &Kept) -> (r: (u128, u128))
    ensures
        r.0 == kept.tokens + token_sum(stats@),
        r.1 == if kept.files + stats@.len() == 0 {
            1
        } else {
            kept.files + stats@.len()
        },
{
    let n: usize = stats.len();
    let mut sum: u128 = kept.tokens as u128;
    let mut i: usize = 0;
    while i < n
        invariant
            i <= n,
            n == stats@.len(),
            sum == kept.tokens + token_sum(stats@.take(i as int)),
            sum <= u64::MAX + i as int * usize::MAX as int,
        decreases n - i,
    {
        assert(stats@.take(i + 1).drop_last() =~= stats@.take(i as int));
        proof {
            assert(i as int * usize::MAX as int + usize::MAX as int == (i + 1) * usize::MAX as int)
                by (nonlinear_arith);
            assert(u64::MAX + (i + 1) * usize::MAX as int <= u128::MAX) by (nonlinear_arith)
                requires
                    i + 1 <= usize::MAX,
                    usize::MAX <= u64::MAX,
            ;
        }
        sum = sum + stats[i].token_len as u128;
        i += 1;
    }
    assert(stats@.take(i as int) =~= stats@);
    let files: u128 = kept.files as u128 + n as u128;
    (
        sum,
        if files == 0 {
            1
        } else {
            files
        },
    )
}

/// The average over files of which some were read before and are kept is that over all of them.
pub proof fn law_average_over_all(before: Seq<FileStats>, read: Seq<FileStats>)
    ensures
        token_sum(before + read) == token_sum(before) + token_sum(read),
    decreases read.len(),
{
    if read.len() == 0 {
        assert(before + read =~= before);
    } else {
        law_average_over_all(before, read.drop_last());
        assert((before + read).drop_last() =~= before + read.drop_last());
    }
}

// ---------------------------------------------------------------------------------------------
// Laws
// ---------------------------------------------------------------------------------------------
/// Which phrases keep their number: those that the index knew, the first of those that read the same;
/// all others are new.
pub proof fn law_known_phrase_kept(
    list: Seq<PhraseRow>,
    known: Map<Seq<char>, i64>,
    max_id: int,
    i: int,
)
    requires
        is_numbered(list, known, max_id),
        0 <= i < list.len(),
    ensures
        list[i].is_new <==> !known.contains_key(list[i].text@) || (i > 0 && list[i - 1].text@
            == list[i].text@),
        !list[i].is_new ==> list[i].id == known[list[i].text@],
        list[i].is_new ==> list[i].id > max_id,
{
}

/// What numbers new phrases get: the first the one behind the largest, and each further one that
/// behind the new one before it.
pub proof fn law_new_phrases_numbered(
    list: Seq<PhraseRow>,
    known: Map<Seq<char>, i64>,
    max_id: int,
    i: int,
    j: int,
)
    requires
        is_numbered(list, known, max_id),
        0 <= i < j < list.len(),
        list[j].is_new,
        forall|k: int| i < k < j ==> !(#[trigger] list[k]).is_new,
    ensures
        list[i].is_new ==> list[j].id == list[i].id + 1,
        !list[i].is_new && i == 0 ==> list[j].id == max_id + 1,
        list[0].is_new ==> list[0].id == max_id + 1,
{
    assert(list[i].id == phrase_id(list, known, max_id, i));
    assert(list[j].id == phrase_id(list, known, max_id, j));
    lemma_none_new_between(list, known, max_id, i + 1, j);
}

/// Phrases that keep their number are not counted as new.
proof fn lemma_none_new_between(
    list: Seq<PhraseRow>,
    known: Map<Seq<char>, i64>,
    max_id: int,
    i: int,
    j: int,
)
    requires
        is_numbered(list, known, max_id),
        0 <= i <= j <= list.len(),
        forall|k: int| i <= k < j ==> !(#[trigger] list[k]).is_new,
    ensures
        new_phrases(list, known, i) == new_phrases(list, known, j),
    decreases j - i,
{
    if i < j {
        lemma_none_new_between(list, known, max_id, i, j - 1);
        assert(!list[j - 1].is_new);
    }
}

/// Rows are ordered by their phrase, and those of one phrase by their file.
pub proof fn law_row_order(p: i64, q: i64, f: i64, g: i64)
    ensures
        p < q ==> key_before((p, f), (q, g)) && !key_before((q, g), (p, f)),
        key_before((p, f), (p, g)) <==> f < g,
{
}

/// In how many files a phrase occurs: in those that did not change and in one more for each row of
/// it, up to the largest number.
pub proof fn law_files_of_phrase_count(rows: Seq<Row>, kept: Map<i64, u32>, r: Row, pid: i64)
    ensures
        kept.contains_key(pid) ==> df_of(Seq::empty(), kept, pid) == kept[pid],
        !kept.contains_key(pid) ==> df_of(Seq::empty(), kept, pid) == 0,
        r.0.0 == pid && df_of(rows, kept, pid) < u32::MAX ==> df_of(rows.push(r), kept, pid) == df_of(
            rows,
            kept,
            pid,
        ) + 1,
        r.0.0 == pid && df_of(rows, kept, pid) == u32::MAX ==> df_of(rows.push(r), kept, pid)
            == u32::MAX,
        r.0.0 != pid ==> df_of(rows.push(r), kept, pid) == df_of(rows, kept, pid),
{
    reveal(Seq::filter);
    assert(rows.push(r).drop_last() =~= rows);
}

/// What scoring leaves and what it changes: every row keeps its place, its key and what its
/// occurrences come to, and gets the number of files of its phrase and the score that goes with it
/// and with the variety of the contexts of the phrase.
pub proof fn law_rows_scored(
    rows: Seq<Row>,
    kept: Map<i64, u32>,
    bands: Map<u64, EntropyBand>,
    i: int,
)
    requires
        0 <= i < rows.len(),
        -1 <= rows[i].2.is_def <= 2,
    ensures
        scored(rows, kept, bands).len() == rows.len(),
        scored(rows, kept, bands)[i].key == rows[i].0,
        scored(rows, kept, bands)[i].entry == rows[i].2,
        scored(rows, kept, bands)[i].df == df_of(rows, kept, rows[i].0.0),
        bands.contains_key(rows[i].1) ==> scored(rows, kept, bands)[i].score == refined(
            rows[i].2.is_def as int,
            rows[i].2.zone as int,
            df_of(rows, kept, rows[i].0.0) as int,
            Some(bands[rows[i].1]),
        ),
        !bands.contains_key(rows[i].1) ==> scored(rows, kept, bands)[i].score == rows[i].2.is_def,
{
}

/// The variety that counts for a phrase is the last one that is known for it.
pub proof fn law_last_band_counts(
    keys: Seq<u64>,
    bands: Seq<Option<EntropyBand>>,
    k: u64,
    i: int,
)
    requires
        keys.len() <= bands.len(),
    ensures
        0 <= i < keys.len() && keys[i] == k && bands[i] is Some && (forall|j: int|
            i < j < keys.len() && #[trigger] keys[j] == k ==> bands[j] is None) ==> keyed_bands(
            keys,
            bands,
        ).contains_key(k) && keyed_bands(keys, bands)[k] == bands[i]->0,
        (forall|j: int| 0 <= j < keys.len() && #[trigger] keys[j] == k ==> bands[j] is None)
            ==> !keyed_bands(keys, bands).contains_key(k),
    decreases keys.len(),
{
    if keys.len() > 0 {
        let s = keys.drop_last();
        let n = keys.len() - 1;
        law_last_band_counts(s, bands, k, i);
        assert(keys[n] == keys.last());
        if 0 <= i < keys.len() && keys[i] == k && bands[i] is Some && (forall|j: int|
            i < j < keys.len() && #[trigger] keys[j] == k ==> bands[j] is None) {
            assert forall|j: int| i < j < s.len() && #[trigger] s[j] == k implies bands[j] is None by {
                assert(keys[j] == k);
            }
            if i < n && keys[n] == k {
                assert(bands[n] is None);
            }
        }
        if forall|j: int| 0 <= j < keys.len() && #[trigger] keys[j] == k ==> bands[j] is None {
            assert forall|j: int| 0 <= j < s.len() && #[trigger] s[j] == k implies bands[j] is None by {
                assert(keys[j] == k);
            }
        }
    }
}

/// A count is stored beside the flags exactly where it is larger than 30, and as it is.
pub proof fn law_large_counts_kept(count: u32)
    ensures
        overflow_of(count) is Some <==> count > 30,
        overflow_of(count) is Some ==> overflow_of(count)->0 == count,
{
}

/// The definitions of a file are its rows with a score of one or more; its own are those of them whose
/// phrase occurs in no other file.
pub proof fn law_definitions_of_file(rows: Seq<ScoredRow>, file: i64, r: ScoredRow)
    ensures
        r.key.1 == file && r.score >= 1 ==> defs_in(rows.push(r), file) == defs_in(rows, file).push(r),
        r.key.1 != file || r.score < 1 ==> defs_in(rows.push(r), file) == defs_in(rows, file),
        r.key.1 == file && r.score >= 1 && r.df == 1 ==> own_defs_in(rows.push(r), file)
            == own_defs_in(rows, file).push(r),
        r.key.1 != file || r.score < 1 || r.df != 1 ==> own_defs_in(rows.push(r), file)
            == own_defs_in(rows, file),
        defs_in(Seq::empty(), file).len() == 0,
        own_defs_in(Seq::empty(), file).len() == 0,
{
    reveal(Seq::filter);
    assert(rows.push(r).drop_last() =~= rows);
}

/// What is known of a file is what was last found out of it; of one that was not read, nothing.
pub proof fn law_last_stats_count(stats: Seq<FileStats>, file: i64, i: int)
    ensures
        0 <= i < stats.len() && stats[i].file == file && (forall|j: int|
            i < j < stats.len() ==> (#[trigger] stats[j]).file != file) ==> stats_of(stats, file)
            == stats[i],
        (forall|j: int| 0 <= j < stats.len() ==> (#[trigger] stats[j]).file != file) ==> {
            let s = stats_of(stats, file);
            &&& s.file == file
            &&& s.token_len == 0
            &&& s.content_len == 0
            &&& s.comment_lines == 0
            &&& s.lines == 0
        },
    decreases stats.len(),
{
    if stats.len() > 0 {
        let s = stats.drop_last();
        let n = stats.len() - 1;
        law_last_stats_count(s, file, i);
        assert(stats[n] == stats.last());
        if 0 <= i < stats.len() && stats[i].file == file && (forall|j: int|
            i < j < stats.len() ==> (#[trigger] stats[j]).file != file) {
            assert forall|j: int| i < j < s.len() implies (#[trigger] s[j]).file != file by {
                assert(stats[j].file != file);
            }
        }
        if forall|j: int| 0 <= j < stats.len() ==> (#[trigger] stats[j]).file != file {
            assert forall|j: int| 0 <= j < s.len() implies (#[trigger] s[j]).file != file by {
                assert(stats[j].file != file);
            }
        }
    }
}

/// The lengths of files add up.
pub proof fn law_token_sum(stats: Seq<FileStats>, s: FileStats)
    ensures
        token_sum(Seq::empty()) == 0,
        token_sum(stats.push(s)) == token_sum(stats) + s.token_len,
{
    assert(stats.push(s).drop_last() =~= stats);
}

/// A row carries the number of its phrase, its file and what the occurrences come to.
pub proof fn law_row_carries(t: Map<OccKey, OccEntry>, ids: Map<u64, i64>, k: OccKey)
    requires
        ids.contains_key(k.0),
    ensures
        row_of(t, ids, k).0.0 == ids[k.0],
        row_of(t, ids, k).0.1 == k.1,
        row_of(t, ids, k).1 == k.0,
        row_of(t, ids, k).2 == t[k],
{
}

/// What is known of files is given file by file, in the order in which they are asked for.
pub proof fn law_stats_in_order(stats: Seq<FileStats>, files: Seq<i64>, i: int)
    requires
        0 <= i < files.len(),
    ensures
        stats_of_all(stats, files).len() == files.len(),
        stats_of_all(stats, files)[i] == stats_of(stats, files[i]),
{
}

/// The rows are those of the table: each is what one phrase comes to in one file, under the number of
/// the phrase, and what each comes to is a row.
pub proof fn law_rows_of_table(
    rows: Seq<Row>,
    t: Map<OccKey, OccEntry>,
    ids: Map<u64, i64>,
    i: int,
    k: OccKey,
)
    requires
        are_rows(rows, t, ids),
    ensures
        0 <= i < rows.len() ==> {
            let r = rows[i];
            &&& t.contains_key((r.1, r.0.1))
            &&& r.2 == t[(r.1, r.0.1)]
            &&& ids.contains_key(r.1) ==> r.0.0 == ids[r.1]
        },
        t.contains_key(k) && ids.contains_key(k.0) ==> exists|j: int|
            {
                &&& 0 <= j < rows.len()
                &&& (#[trigger] rows[j]).0.0 == ids[k.0]
                &&& rows[j].0.1 == k.1
                &&& rows[j].1 == k.0
                &&& rows[j].2 == t[k]
            },
{
    if 0 <= i < rows.len() {
        assert(is_row(rows[i], t, ids));
        let x = choose|x: OccKey| #[trigger] t.contains_key(x) && rows[i] == row_of(t, ids, x);
        assert(x == (rows[i].1, rows[i].0.1));
    }
    if t.contains_key(k) {
        assert(rows.contains(row_of(t, ids, k)));
        let j = choose|j: int| 0 <= j < rows.len() && rows[j] == row_of(t, ids, k);
        assert(rows[j] == row_of(t, ids, k));
    }
}

/// The keys of the contexts are the hashes of their phrases, one for each.
pub proof fn law_context_keys(keys: Seq<u64>, contexts: ContextTable, i: int)
    requires
        context_hashes(keys, contexts),
    ensures
        keys.len() == contexts.entries@.len(),
        0 <= i < keys.len() ==> is_hash(keys[i], contexts.entries@[i].phrase@),
{
}

} // verus!
