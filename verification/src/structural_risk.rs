//! What a change may reach: who uses a name, which files share vocabulary, what to read, edit and
//! verify.

use vstd::prelude::*;

use crate::index::incremental::lemma_filter_all;
use crate::index::occurrences::lemma_filter_push;
use crate::index::schema::{count_in, score_in, unpack_count, unpack_is_def};
use crate::order::{
    is_top, keeps_order, law_top_is_best, lemma_filter_keeps, ranks_before, top,
};
use crate::search::terms::{lower_all, lowered};
use crate::text::{
    before_last, contains, contains_string, last_index, law_last_index_parts, lemma_last_index, occurs,
    str_eq, views,
};
use crate::text_map::{distinct_keys, entry_at, has_entry, lemma_entry_map, TextMap};
use crate::zone::{extract_phrases, phrases};

verus! {

broadcast use vstd::seq::group_seq_axioms;

// ---------------------------------------------------------------------------------------------
// Tallies
// ---------------------------------------------------------------------------------------------
/// What the items with the key `k` weigh together.
pub open spec fn weight_of(items: Seq<(String, u32)>, k: Seq<char>) -> nat
    decreases items.len(),
{
    if items.len() == 0 {
        0
    } else {
        weight_of(items.drop_last(), k) + if items.last().0@ == k {
            items.last().1 as nat
        } else {
            0
        }
    }
}

/// Some item has the key `k`.
pub open spec fn has_item(items: Seq<(String, u32)>, k: Seq<char>) -> bool {
    exists|i: int| 0 <= i < items.len() && (#[trigger] items[i]).0@ == k
}

/// A weight as far as a counter reaches.
pub open spec fn capped(n: nat) -> u64 {
    if n <= u64::MAX {
        n as u64
    } else {
        u64::MAX
    }
}

/// `m` holds for each key of the items what they weigh together, and nothing else.
pub open spec fn is_tally(m: Map<Seq<char>, u64>, items: Seq<(String, u32)>) -> bool {
    &&& forall|k: Seq<char>| #[trigger] m.contains_key(k) == has_item(items, k)
    &&& forall|k: Seq<char>| #[trigger] m.contains_key(k) ==> m[k] == capped(weight_of(items, k))
}

/// Adds up the weights of the items with the same key.
pub fn tally(items: &Vec<(String, u32)>) -> (m: TextMap<u64>)
    ensures
        m.wf(),
        is_tally(m@, items@),
{
    let mut m: TextMap<u64> = TextMap::new();
    let mut i: usize = 0;
    while i < items.len()
        invariant
            i <= items@.len(),
            m.wf(),
            is_tally(m@, items@.take(i as int)),
        decreases items@.len() - i,
    {
        let ghost before = items@.take(i as int);
        let ghost after = items@.take(i + 1);
        let ghost k0 = items@[i as int].0@;
        let ghost m0 = m@;
        let w: u64 = items[i].1 as u64;
        let n: u64 = match m.get(items[i].0.as_str()) {
            Some(n) => *n,
            None => 0,
        };
        m.insert(items[i].0.clone(), n.saturating_add(w));
        proof {
            assert(after.drop_last() =~= before);
            assert forall|k: Seq<char>| has_item(after, k) == (has_item(before, k) || k == k0) by {
                if has_item(after, k) {
                    let j = choose|j: int| 0 <= j < after.len() && (#[trigger] after[j]).0@ == k;
                    if j < before.len() {
                        assert(before[j].0@ == k);
                    }
                }
                if has_item(before, k) {
                    let j = choose|j: int| 0 <= j < before.len() && (#[trigger] before[j]).0@ == k;
                    assert(after[j].0@ == k);
                }
                assert(after[i as int].0@ == k0);
            }
            if !m0.contains_key(k0) {
                lemma_no_weight(before, k0);
            }
            assert forall|k: Seq<char>| #[trigger] m@.contains_key(k) implies m@[k] == capped(
                weight_of(after, k),
            ) by {
                if k != k0 {
                    assert(m0.contains_key(k));
                }
            }
        }
        i += 1;
    }
    assert(items@.take(i as int) =~= items@);
    m
}

/// A key that no item has weighs nothing.
proof fn lemma_no_weight(items: Seq<(String, u32)>, k: Seq<char>)
    requires
        !has_item(items, k),
    ensures
        weight_of(items, k) == 0,
    decreases items.len(),
{
    if items.len() > 0 {
        let before = items.drop_last();
        if has_item(before, k) {
            let j = choose|j: int| 0 <= j < before.len() && (#[trigger] before[j]).0@ == k;
            assert(items[j].0@ == k);
        }
        assert(items[items.len() - 1].0@ != k);
        lemma_no_weight(before, k);
    }
}

/// The weights of the entries of a tally.
pub open spec fn weights(entries: Seq<(String, u64)>) -> Seq<u64> {
    entries.map_values(|e: (String, u64)| e.1)
}

/// `r` holds the `n` entries with the largest weights, or all where there are fewer, the largest
/// first; entries of the same weight stay in their order.
pub open spec fn is_ranked(r: Seq<(String, u64)>, entries: Seq<(String, u64)>, n: int) -> bool {
    exists|p: Seq<usize>| #[trigger]
        is_top(p, weights(entries), n) && r.len() == p.len() && forall|k: int|
            0 <= k < r.len() ==> (#[trigger] r[k]) == entries[p[k] as int]
}

/// The entries with the largest weights.
pub fn ranked(m: &TextMap<u64>, n: usize) -> (r: Vec<(String, u64)>)
    ensures
        is_ranked(r@, m.entries@, n as int),
{
    let mut scores: Vec<u64> = Vec::new();
    let mut i: usize = 0;
    while i < m.entries.len()
        invariant
            i <= m.entries@.len(),
            scores@ == weights(m.entries@).take(i as int),
        decreases m.entries@.len() - i,
    {
        scores.push(m.entries[i].1);
        i += 1;
    }
    assert(scores@ =~= weights(m.entries@));
    let order = top(&scores, n);
    let mut r: Vec<(String, u64)> = Vec::new();
    let mut k: usize = 0;
    while k < order.len()
        invariant
            k <= order@.len(),
            is_top(order@, weights(m.entries@), n as int),
            weights(m.entries@).len() == m.entries@.len(),
            r@.len() == k,
            forall|j: int| 0 <= j < k ==> (#[trigger] r@[j]) == m.entries@[order@[j] as int],
        decreases order@.len() - k,
    {
        let at: usize = order[k];
        r.push((m.entries[at].0.clone(), m.entries[at].1));
        k += 1;
    }
    r
}

/// `r` ranks what the items weigh: its entries are the keys of the items with their weights, the
/// `n` largest first.
pub open spec fn ranks(r: Seq<(String, u64)>, items: Seq<(String, u32)>, n: int) -> bool {
    exists|m: TextMap<u64>| #[trigger]
        m.wf() && is_tally(m@, items) && is_ranked(r, m.entries@, n)
}

/// No key is ranked twice, each with the weight of its items, none before a heavier one, and none is
/// left out for a lighter one.
pub proof fn law_ranks(r: Seq<(String, u64)>, items: Seq<(String, u32)>, n: int)
    requires
        ranks(r, items, n),
        0 <= n,
    ensures
        r.len() <= n,
        distinct_keys(r),
        forall|i: int|
            0 <= i < r.len() ==> has_item(items, (#[trigger] r[i]).0@) && r[i].1 == capped(
                weight_of(items, r[i].0@),
            ),
        forall|i: int, j: int|
            0 <= i < j < r.len() ==> (#[trigger] r[i]).1 >= (#[trigger] r[j]).1,
        forall|i: int, k: Seq<char>|
            0 <= i < r.len() && #[trigger] has_item(items, k) && !has_entry(r, k)
                ==> (#[trigger] r[i]).1 >= capped(weight_of(items, k)),
        forall|k: Seq<char>| #[trigger] has_item(items, k) && !has_entry(r, k) ==> r.len() == n,
{
    let m = choose|m: TextMap<u64>| #[trigger]
        m.wf() && is_tally(m@, items) && is_ranked(r, m.entries@, n);
    let e = m.entries@;
    let w = weights(e);
    let p = choose|p: Seq<usize>| #[trigger]
        is_top(p, w, n) && r.len() == p.len() && forall|k: int|
            0 <= k < r.len() ==> (#[trigger] r[k]) == e[p[k] as int];
    assert forall|i: int, j: int| 0 <= i < j < r.len() implies (#[trigger] r[i]).1 >= (
    #[trigger] r[j]).1 && r[i].0@ != r[j].0@ by {
        assert(r[i] == e[p[i] as int] && r[j] == e[p[j] as int]);
        let a = p[i] as int;
        let b = p[j] as int;
        assert(ranks_before(w, a, b));
        if a < b {
            assert(e[a].0@ != e[b].0@);
        } else {
            assert(e[b].0@ != e[a].0@);
        }
    }
    assert forall|i: int| 0 <= i < r.len() implies has_item(items, (#[trigger] r[i]).0@) && r[i].1
        == capped(weight_of(items, r[i].0@)) by {
        lemma_entry_map(e, p[i] as int);
        assert(m@.contains_key(r[i].0@));
    }
    assert forall|i: int, k: Seq<char>|
        0 <= i < r.len() && #[trigger] has_item(items, k) && !has_entry(
            r,
            k,
        ) implies (#[trigger] r[i]).1 >= capped(weight_of(items, k)) by {
        assert(m@.contains_key(k));
        let x = entry_at(e, k);
        assert(has_entry(e, k));
        lemma_entry_map(e, x);
        let xu = m.index@[k];
        assert(e[xu as int].0@ == k);
        assert(xu == x) by {
            if xu < x {
                assert(e[xu as int].0@ != e[x].0@);
            } else if x < xu {
                assert(e[x].0@ != e[xu as int].0@);
            }
        }
        if p.contains(xu) {
            let q = choose|q: int| 0 <= q < p.len() && p[q] == xu;
            assert(r[q].0@ == k);
        }
        assert(ranks_before(w, p[i] as int, xu as int));
        assert(r[i] == e[p[i] as int]);
    }
    law_top_is_best(p, w, n);
    assert forall|k: Seq<char>| #[trigger] has_item(items, k) && !has_entry(r, k) implies r.len()
        == n by {
        assert(m@.contains_key(k));
        let xu = m.index@[k];
        assert(e[xu as int].0@ == k);
        if p.contains(xu) {
            let q = choose|q: int| 0 <= q < p.len() && p[q] == xu;
            assert(r[q].0@ == k);
        }
    }
}

// ---------------------------------------------------------------------------------------------
// Callers
// ---------------------------------------------------------------------------------------------
/// A use of a name: the file, its path, how often the name occurs in it, and the flags that are
/// stored with the occurrence.
pub struct NameUse {
    pub file: i64,
    pub path: String,
    pub count: u32,
    pub flags: u8,
}

/// The file of the first of the uses that is a definition: one whose definition score is at least 1.
pub open spec fn first_definition(uses: Seq<NameUse>) -> Option<i64>
    decreases uses.len(),
{
    if uses.len() == 0 {
        None
    } else if score_in(uses[0].flags as int) >= 1 {
        Some(uses[0].file)
    } else {
        first_definition(uses.drop_first())
    }
}

/// The file that defines a name: the first among its uses whose definition score is at least 1.
pub fn definition_file(uses: &Vec<NameUse>) -> (r: Option<i64>)
    ensures
        r == first_definition(uses@),
{
    let mut i: usize = 0;
    assert(uses@.skip(0) =~= uses@);
    while i < uses.len()
        invariant
            i <= uses@.len(),
            first_definition(uses@) == first_definition(uses@.skip(i as int)),
        decreases uses@.len() - i,
    {
        assert(uses@.skip(i as int).drop_first() =~= uses@.skip(i + 1));
        if unpack_is_def(uses[i].flags) >= 1 {
            return Some(uses[i].file);
        }
        i += 1;
    }
    None
}

/// The uses that are calls: those outside the file that defines the name, or all of them where no
/// file is known to define it.
pub open spec fn calls(uses: Seq<NameUse>) -> Seq<NameUse> {
    uses.filter(outside(first_definition(uses)))
}

/// A use stands outside the file that defines its name.
pub open spec fn outside(def: Option<i64>) -> spec_fn(NameUse) -> bool {
    |u: NameUse| def != Some(u.file)
}

/// The files that call a name, each with the number of times, in the order of the uses.
pub fn who_calls(uses: &Vec<NameUse>) -> (r: Vec<(String, u32)>)
    ensures
        r@.len() == calls(uses@).len(),
        forall|i: int|
            0 <= i < r@.len() ==> (#[trigger] r@[i]).0@ == calls(uses@)[i].path@ && r@[i].1
                == calls(uses@)[i].count,
{
    let mut r: Vec<(String, u32)> = Vec::new();
    let def = definition_file(uses);
    let ghost mut kept: Seq<NameUse> = Seq::empty();
    let mut i: usize = 0;
    proof {
        reveal(Seq::filter);
    }
    while i < uses.len()
        invariant
            i <= uses@.len(),
            kept == uses@.take(i as int).filter(outside(def)),
            kept.len() == r@.len(),
            forall|k: int|
                0 <= k < r@.len() ==> (#[trigger] r@[k]).0@ == kept[k].path@ && r@[k].1
                    == kept[k].count,
        decreases uses@.len() - i,
    {
        proof {
            assert(uses@.take(i + 1) =~= uses@.take(i as int).push(uses@[i as int]));
            lemma_filter_push(uses@.take(i as int), uses@[i as int], outside(def));
        }
        let inside = match def {
            Some(f) => f == uses[i].file,
            None => false,
        };
        if !inside {
            r.push((uses[i].path.clone(), uses[i].count));
            proof {
                kept = kept.push(uses@[i as int]);
            }
        }
        i += 1;
    }
    assert(uses@.take(i as int) =~= uses@);
    r
}

/// Where every file has at most one use of a name, the calls hold every use outside the file that
/// defines the name, once, and nothing else; a file in which the name does not occur is never among
/// them.
pub proof fn law_calls_cover(uses: Seq<NameUse>)
    requires
        forall|i: int, j: int|
            0 <= i < j < uses.len() ==> (#[trigger] uses[i]).file != (#[trigger] uses[j]).file,
    ensures
        forall|u: NameUse| #[trigger]
            calls(uses).contains(u) <==> uses.contains(u) && first_definition(uses) != Some(u.file),
        forall|i: int, j: int|
            0 <= i < j < calls(uses).len() ==> (#[trigger] calls(uses)[i]).file != (
            #[trigger] calls(uses)[j]).file,
{
    let p = outside(first_definition(uses));
    lemma_filter_distinct(uses, p);
    assert forall|u: NameUse| #[trigger]
        calls(uses).contains(u) <==> uses.contains(u) && first_definition(uses) != Some(u.file) by {
        lemma_filter_holds(uses, p, u);
    }
}

/// A filter keeps the elements that satisfy it.
proof fn lemma_filter_holds(s: Seq<NameUse>, p: spec_fn(NameUse) -> bool, u: NameUse)
    ensures
        s.filter(p).contains(u) <==> s.contains(u) && p(u),
    decreases s.len(),
{
    reveal(Seq::filter);
    if s.len() > 0 {
        let t = s.drop_last();
        let x = s.last();
        lemma_filter_holds(t, p, u);
        assert(s =~= t.push(x));
        lemma_push_holds(t, x, u);
        lemma_push_holds(t.filter(p), x, u);
    }
}

/// What a sequence with one more element holds.
proof fn lemma_push_holds(s: Seq<NameUse>, x: NameUse, u: NameUse)
    ensures
        s.push(x).contains(u) <==> s.contains(u) || u == x,
{
    if s.contains(u) {
        let k = choose|k: int| 0 <= k < s.len() && s[k] == u;
        assert(s.push(x)[k] == u);
    }
    if u == x {
        assert(s.push(x)[s.len() as int] == u);
    }
}

/// A filter keeps the uses of different files apart.
proof fn lemma_filter_distinct(s: Seq<NameUse>, p: spec_fn(NameUse) -> bool)
    requires
        forall|i: int, j: int|
            0 <= i < j < s.len() ==> (#[trigger] s[i]).file != (#[trigger] s[j]).file,
    ensures
        forall|i: int, j: int|
            0 <= i < j < s.filter(p).len() ==> (#[trigger] s.filter(p)[i]).file != (
            #[trigger] s.filter(p)[j]).file,
    decreases s.len(),
{
    reveal(Seq::filter);
    if s.len() > 0 {
        let t = s.drop_last();
        let x = s.last();
        lemma_filter_distinct(t, p);
        let f = t.filter(p);
        assert forall|i: int| 0 <= i < f.len() implies (#[trigger] f[i]).file != x.file by {
            assert(f.contains(f[i]));
            lemma_filter_holds(t, p, f[i]);
            let k = choose|k: int| 0 <= k < t.len() && t[k] == f[i];
            assert(s[k].file != s[s.len() - 1].file);
        }
        if p(x) {
            assert(s.filter(p) =~= f.push(x));
        } else {
            assert(s.filter(p) =~= f);
        }
    }
}

// ---------------------------------------------------------------------------------------------
// Chains of callers
// ---------------------------------------------------------------------------------------------
/// The callers of a name by how many calls away they are: those of the name itself first, then those
/// of what the files before define.
pub struct Trace {
    /// For each number of calls, from 1 on, the files that are that far away and no nearer.
    pub hops: Vec<Vec<String>>,
    /// The largest number of calls to look for.
    pub depth: u32,
}

/// The file `p` is among those that were reached.
pub open spec fn is_reached(hops: Seq<Vec<String>>, p: Seq<char>) -> bool {
    exists|i: int| 0 <= i < hops.len() && views((#[trigger] hops[i])@).contains(p)
}

/// The files among `found` that were not reached before, each where it comes first.
pub open spec fn newly_reached(found: Seq<Seq<char>>, hops: Seq<Vec<String>>) -> Seq<Seq<char>>
    decreases found.len(),
{
    if found.len() == 0 {
        Seq::empty()
    } else {
        let before = newly_reached(found.drop_last(), hops);
        if is_reached(hops, found.last()) || before.contains(found.last()) {
            before
        } else {
            before.push(found.last())
        }
    }
}

impl Trace {
    /// A trace of up to `depth` calls that has reached nothing yet.
    pub fn new(depth: u32) -> (t: Trace)
        ensures
            t.hops@.len() == 0,
            t.depth == depth,
    {
        Trace { hops: Vec::new(), depth }
    }

    /// The trace goes on: the depth is not reached, and the last step, if there was one, reached
    /// something.
    pub open spec fn goes_on(&self) -> bool {
        self.hops@.len() < self.depth && (self.hops@.len() == 0 || self.hops@.last()@.len() > 0)
    }

    /// Whether the trace goes on.
    pub fn wants_more(&self) -> (r: bool)
        ensures
            r == self.goes_on(),
    {
        let n: usize = self.hops.len();
        (n as u64) < self.depth as u64 && (n == 0 || self.hops[n - 1].len() > 0)
    }

    /// Whether the file was reached.
    fn reached(&self, p: &str) -> (r: bool)
        ensures
            r == is_reached(self.hops@, p@),
    {
        let mut i: usize = 0;
        while i < self.hops.len()
            invariant
                i <= self.hops@.len(),
                forall|k: int| 0 <= k < i ==> !views((#[trigger] self.hops@[k])@).contains(p@),
            decreases self.hops@.len() - i,
        {
            if contains_string(&self.hops[i], p) {
                assert(views(self.hops@[i as int]@).contains(p@));
                return true;
            }
            i += 1;
        }
        false
    }

    /// Takes one step: the files `found` call what was reached last.
    pub fn add_step(&mut self, found: &Vec<String>)
        ensures
            final(self).depth == old(self).depth,
            final(self).hops@.len() == old(self).hops@.len() + 1,
            final(self).hops@.drop_last() == old(self).hops@,
            views(final(self).hops@.last()@) == newly_reached(views(found@), old(self).hops@),
    {
        let mut hop: Vec<String> = Vec::new();
        let ghost all = views(found@);
        let ghost hops = self.hops@;
        let mut i: usize = 0;
        assert(views(hop@) =~= newly_reached(all.take(0), hops));
        while i < found.len()
            invariant
                i <= found@.len(),
                all == views(found@),
                hops == self.hops@,
                *self == *old(self),
                views(hop@) == newly_reached(all.take(i as int), hops),
            decreases found@.len() - i,
        {
            assert(all.take(i + 1).drop_last() =~= all.take(i as int));
            assert(all[i as int] == found@[i as int]@);
            let ghost before = hop@;
            if !self.reached(found[i].as_str()) && !contains_string(&hop, found[i].as_str()) {
                hop.push(found[i].clone());
                assert(views(hop@) =~= views(before).push(all[i as int]));
            }
            i += 1;
        }
        assert(all.take(i as int) =~= all);
        self.hops.push(hop);
        assert(final(self).hops@.drop_last() =~= old(self).hops@);
    }
}

/// A step reaches exactly the files that were found and not reached before, each once.
pub proof fn law_step_reaches_new(found: Seq<Seq<char>>, hops: Seq<Vec<String>>)
    ensures
        forall|p: Seq<char>| #[trigger]
            newly_reached(found, hops).contains(p) <==> found.contains(p) && !is_reached(hops, p),
        newly_reached(found, hops).no_duplicates(),
    decreases found.len(),
{
    if found.len() > 0 {
        let f = found.drop_last();
        let x = found.last();
        law_step_reaches_new(f, hops);
        let before = newly_reached(f, hops);
        let now = newly_reached(found, hops);
        assert(found =~= f.push(x));
        assert forall|p: Seq<char>| #[trigger]
            now.contains(p) <==> found.contains(p) && !is_reached(hops, p) by {
            lemma_text_push_holds(f, x, p);
            lemma_text_push_holds(before, x, p);
            assert(before.contains(p) <==> f.contains(p) && !is_reached(hops, p));
            assert(before.contains(x) <==> f.contains(x) && !is_reached(hops, x));
        }
        if now.len() > before.len() {
            assert forall|i: int, j: int| 0 <= i < now.len() && 0 <= j < now.len() && i
                != j implies now[i] != now[j] by {
                if i < before.len() {
                    assert(before.contains(before[i]));
                }
                if j < before.len() {
                    assert(before.contains(before[j]));
                }
            }
        }
    }
}

/// What a sequence with one more element holds.
proof fn lemma_text_push_holds(s: Seq<Seq<char>>, x: Seq<char>, p: Seq<char>)
    ensures
        s.push(x).contains(p) <==> s.contains(p) || p == x,
{
    if s.contains(p) {
        let k = choose|k: int| 0 <= k < s.len() && s[k] == p;
        assert(s.push(x)[k] == p);
    }
    if p == x {
        assert(s.push(x)[s.len() as int] == p);
    }
}

// ---------------------------------------------------------------------------------------------
// Shared vocabulary
// ---------------------------------------------------------------------------------------------
/// The module of a file: the directory that it stands in, or the file itself at the root.
pub open spec fn module_of(path: Seq<char>) -> Seq<char> {
    if last_index(path, '/') >= 0 {
        path.take(last_index(path, '/'))
    } else {
        path
    }
}

fn module(path: &str) -> (r: String)
    ensures
        r@ == module_of(path@),
{
    match before_last(path, '/') {
        Some(d) => d,
        None => path.to_owned(),
    }
}

/// The phrases among the rows, each a phrase with its flags, whose definition score is at least 1.
pub open spec fn defined(rows: Seq<(String, u8)>) -> Seq<(String, u8)> {
    rows.filter(|r: (String, u8)| score_in(r.1 as int) >= 1)
}

/// The phrases that a file defines, among those that it holds.
pub fn defined_phrases(rows: &Vec<(String, u8)>) -> (r: Vec<String>)
    ensures
        views(r@) == defined(rows@).map_values(|r: (String, u8)| r.0@),
{
    let mut r: Vec<String> = Vec::new();
    let ghost is_def = |r: (String, u8)| score_in(r.1 as int) >= 1;
    let mut i: usize = 0;
    proof {
        reveal(Seq::filter);
    }
    assert(views(r@) =~= rows@.take(0).filter(is_def).map_values(|r: (String, u8)| r.0@));
    while i < rows.len()
        invariant
            i <= rows@.len(),
            is_def == (|r: (String, u8)| score_in(r.1 as int) >= 1),
            views(r@) == rows@.take(i as int).filter(is_def).map_values(|r: (String, u8)| r.0@),
        decreases rows@.len() - i,
    {
        let ghost before = r@;
        proof {
            assert(rows@.take(i + 1) =~= rows@.take(i as int).push(rows@[i as int]));
            lemma_filter_push(
                rows@.take(i as int),
                rows@[i as int],
                is_def,
            );
        }
        if unpack_is_def(rows[i].1) >= 1 {
            r.push(rows[i].0.clone());
            assert(views(r@) =~= views(before).push(rows@[i as int].0@));
            assert(views(r@) =~= rows@.take(i + 1).filter(is_def).map_values(
                |r: (String, u8)| r.0@,
            ));
        }
        i += 1;
    }
    assert(rows@.take(i as int) =~= rows@);
    r
}

/// One item of weight 1 for each of the paths that stands in another module than `file`.
pub open spec fn elsewhere(file: Seq<char>, paths: Seq<Seq<char>>) -> Seq<Seq<char>> {
    paths.filter(|p: Seq<char>| module_of(p) != module_of(file))
}

/// The items are the given keys, each with the weight 1.
pub open spec fn ones(items: Seq<(String, u32)>, keys: Seq<Seq<char>>) -> bool {
    &&& items.len() == keys.len()
    &&& forall|i: int|
        0 <= i < items.len() ==> (#[trigger] items[i]).0@ == keys[i] && items[i].1 == 1
}

/// `r` lists the 20 files of other directories that occur most often among those that share, with how
/// often they do.
pub open spec fn are_hidden_deps(
    r: Seq<(String, u64)>,
    file: Seq<char>,
    sharing: Seq<Seq<char>>,
) -> bool {
    exists|items: Seq<(String, u32)>|
        ones(items, elsewhere(file, sharing)) && #[trigger] ranks(r, items, 20)
}

/// The files of other modules that share rare vocabulary with a file: the 20 that share most.
/// `sharing` lists, for each rare phrase that the file defines, the other files that hold it.
pub fn latent_deps(file: &str, sharing: &Vec<String>) -> (r: Vec<(String, u64)>)
    ensures
        are_hidden_deps(r@, file@, views(sharing@)),
{
    let home = module(file);
    let mut items: Vec<(String, u32)> = Vec::new();
    let ghost all = views(sharing@);
    let ghost away = |p: Seq<char>| module_of(p) != module_of(file@);
    let mut i: usize = 0;
    proof {
        reveal(Seq::filter);
    }
    while i < sharing.len()
        invariant
            i <= sharing@.len(),
            all == views(sharing@),
            away == (|p: Seq<char>| module_of(p) != module_of(file@)),
            home@ == module_of(file@),
            ones(items@, all.take(i as int).filter(away)),
        decreases sharing@.len() - i,
    {
        proof {
            assert(all.take(i + 1) =~= all.take(i as int).push(all[i as int]));
            lemma_filter_push(all.take(i as int), all[i as int], away);
            assert(all[i as int] == sharing@[i as int]@);
        }
        let other = module(sharing[i].as_str());
        if !str_eq(other.as_str(), home.as_str()) {
            items.push((sharing[i].clone(), 1));
        }
        i += 1;
    }
    assert(all.take(i as int) =~= all);
    let m = tally(&items);
    let r = ranked(&m, 20);
    proof {
        assert(m.wf() && is_tally(m@, items@) && is_ranked(r@, m.entries@, 20));
        assert(ranks(r@, items@, 20));
        assert(ones(items@, elsewhere(file@, views(sharing@))));
    }
    r
}

/// The phrases among the rows, each a phrase with its flags and its count, with a positive
/// definition score: those by which other files are found.
pub open spec fn telling(rows: Seq<(String, u8, u32)>) -> Seq<(String, u8, u32)> {
    rows.filter(|r: (String, u8, u32)| score_in(r.1 as int) > 0)
}

/// The phrases that a file defines, likely or surely, with their counts.
pub fn telling_phrases(rows: &Vec<(String, u8, u32)>) -> (r: Vec<(String, u32)>)
    ensures
        r@.map_values(|p: (String, u32)| (p.0@, p.1)) == telling(rows@).map_values(
            |r: (String, u8, u32)| (r.0@, r.2),
        ),
{
    let mut r: Vec<(String, u32)> = Vec::new();
    let ghost is_def = |r: (String, u8, u32)| score_in(r.1 as int) > 0;
    let mut i: usize = 0;
    proof {
        reveal(Seq::filter);
    }
    assert(r@.map_values(|p: (String, u32)| (p.0@, p.1)) =~= rows@.take(0).filter(
        is_def,
    ).map_values(|r: (String, u8, u32)| (r.0@, r.2)));
    while i < rows.len()
        invariant
            i <= rows@.len(),
            is_def == (|r: (String, u8, u32)| score_in(r.1 as int) > 0),
            r@.map_values(|p: (String, u32)| (p.0@, p.1)) == rows@.take(i as int).filter(
                is_def,
            ).map_values(|r: (String, u8, u32)| (r.0@, r.2)),
        decreases rows@.len() - i,
    {
        let ghost before = r@;
        proof {
            assert(rows@.take(i + 1) =~= rows@.take(i as int).push(rows@[i as int]));
            lemma_filter_push(
                rows@.take(i as int),
                rows@[i as int],
                is_def,
            );
        }
        if unpack_is_def(rows[i].1) > 0 {
            r.push((rows[i].0.clone(), rows[i].2));
            assert(r@.map_values(|p: (String, u32)| (p.0@, p.1)) =~= before.map_values(
                |p: (String, u32)| (p.0@, p.1),
            ).push((rows@[i as int].0@, rows@[i as int].2)));
            assert(r@.map_values(|p: (String, u32)| (p.0@, p.1)) =~= rows@.take(i + 1).filter(
                is_def,
            ).map_values(|r: (String, u8, u32)| (r.0@, r.2)));
        }
        i += 1;
    }
    assert(rows@.take(i as int) =~= rows@);
    r
}

/// `r` lists the 20 heaviest of the files, by the weights that they have together.
pub open spec fn is_radius(r: Seq<(String, u64)>, sharing: Seq<(String, u32)>) -> bool {
    ranks(r, sharing, 20)
}

/// The blast radius of a file: the 20 files that share most of its vocabulary. `sharing` lists, for
/// each telling phrase of the file, the other files that hold it, each with the count of the phrase.
pub fn blast_radius(sharing: &Vec<(String, u32)>) -> (r: Vec<(String, u64)>)
    ensures
        is_radius(r@, sharing@),
{
    let m = tally(sharing);
    let r = ranked(&m, 20);
    assert(m.wf() && is_tally(m@, sharing@) && is_ranked(r@, m.entries@, 20));
    r
}

/// The paths among the rows, each a path with flags, with a positive definition score.
pub open spec fn defining(rows: Seq<(String, u8)>) -> Seq<Seq<char>> {
    rows.filter(|r: (String, u8)| score_in(r.1 as int) > 0).map_values(|r: (String, u8)| r.0@)
}

/// `r` lists the 10 paths that occur most often among the defining rows, with how often they do.
pub open spec fn are_candidates(r: Seq<(String, u64)>, rows: Seq<(String, u8)>) -> bool {
    exists|items: Seq<(String, u32)>|
        ones(items, defining(rows)) && #[trigger] ranks(r, items, 10)
}

/// The tests to verify a change of a file by: the 10 that define most of its phrases. `rows` lists
/// the phrases that tests share with the file, each as the path of the test with the flags of the
/// phrase in it.
pub fn find_verify_candidates(rows: &Vec<(String, u8)>) -> (r: Vec<(String, u64)>)
    ensures
        are_candidates(r@, rows@),
{
    let mut items: Vec<(String, u32)> = Vec::new();
    let ghost is_def = |r: (String, u8)| score_in(r.1 as int) > 0;
    let mut i: usize = 0;
    proof {
        reveal(Seq::filter);
    }
    while i < rows.len()
        invariant
            i <= rows@.len(),
            is_def == (|r: (String, u8)| score_in(r.1 as int) > 0),
            ones(
                items@,
                rows@.take(i as int).filter(is_def).map_values(|r: (String, u8)| r.0@),
            ),
        decreases rows@.len() - i,
    {
        proof {
            assert(rows@.take(i + 1) =~= rows@.take(i as int).push(rows@[i as int]));
            lemma_filter_push(
                rows@.take(i as int),
                rows@[i as int],
                is_def,
            );
        }
        if unpack_is_def(rows[i].1) > 0 {
            items.push((rows[i].0.clone(), 1));
        }
        i += 1;
    }
    assert(rows@.take(i as int) =~= rows@);
    let m = tally(&items);
    let r = ranked(&m, 10);
    proof {
        assert(m.wf() && is_tally(m@, items@) && is_ranked(r@, m.entries@, 10));
        assert(ranks(r@, items@, 10));
        assert(ones(items@, defining(rows@)));
    }
    r
}

// ---------------------------------------------------------------------------------------------
// Plans
// ---------------------------------------------------------------------------------------------
/// How risky a change looks.
#[derive(Clone, Copy, Debug, PartialEq, Eq, Structural)]
pub enum Risk {
    /// Nothing was found to change.
    Unknown,
    /// What to change is clear.
    Low,
    /// What to change is less clear.
    Moderate,
}

/// The terms that a task is planned by: its phrases, in lowercase.
pub fn task_terms(task: &str) -> (r: Vec<String>)
    ensures
        views(r@) == lowered(phrases(task@)),
{
    lower_all(&extract_phrases(task))
}

/// A plan for a task.
pub struct Plan {
    /// The file to edit.
    pub edit: Option<String>,
    /// The tests to verify with.
    pub verify: Vec<String>,
    /// The files to read first.
    pub read_first: Vec<String>,
    /// The files that the one to edit may be coupled with.
    pub coupled: Vec<String>,
    /// The risk.
    pub risk: Risk,
}

/// The part of a sequence from `from` to `to`, as far as it reaches.
pub open spec fn slice_of<T>(s: Seq<T>, from: int, to: int) -> Seq<T> {
    let e = if to < s.len() {
        to
    } else {
        s.len() as int
    };
    if from < e {
        s.subrange(from, e)
    } else {
        Seq::empty()
    }
}

/// The first `n` files whose path holds `test`.
pub open spec fn tests_among(files: Seq<Seq<char>>, n: int) -> Seq<Seq<char>> {
    slice_of(files.filter(|f: Seq<char>| occurs(f, "test"@)), 0, n)
}

pub fn part(files: &Vec<String>, from: usize, to: usize) -> (r: Vec<String>)
    ensures
        views(r@) == slice_of(views(files@), from as int, to as int),
{
    let mut r: Vec<String> = Vec::new();
    let ghost all = views(files@);
    let mut i: usize = from;
    assert(views(r@) =~= Seq::<Seq<char>>::empty());
    while i < to && i < files.len()
        invariant
            from <= i,
            i <= from || (i <= to && i <= files@.len()),
            all == views(files@),
            views(r@) == slice_of(all, from as int, i as int),
        decreases files@.len() - i,
    {
        let ghost before = r@;
        r.push(files[i].clone());
        assert(views(r@) =~= views(before).push(all[i as int]));
        assert(slice_of(all, from as int, i + 1) =~= slice_of(all, from as int, i as int).push(
            all[i as int],
        ));
        i += 1;
    }
    assert(slice_of(all, from as int, i as int) =~= slice_of(all, from as int, to as int));
    r
}

fn first_tests(files: &Vec<String>, n: usize) -> (r: Vec<String>)
    ensures
        views(r@) == tests_among(views(files@), n as int),
{
    let mut r: Vec<String> = Vec::new();
    let ghost all = views(files@);
    let ghost is_test = |f: Seq<char>| occurs(f, "test"@);
    let mut i: usize = 0;
    proof {
        reveal(Seq::filter);
    }
    assert(views(r@) =~= all.take(0).filter(is_test));
    while i < files.len()
        invariant
            i <= files@.len(),
            all == views(files@),
            is_test == (|f: Seq<char>| occurs(f, "test"@)),
            views(r@) == all.take(i as int).filter(is_test),
        decreases files@.len() - i,
    {
        let ghost before = r@;
        proof {
            assert(all.take(i + 1) =~= all.take(i as int).push(all[i as int]));
            lemma_filter_push(all.take(i as int), all[i as int], is_test);
            assert(all[i as int] == files@[i as int]@);
        }
        if contains(files[i].as_str(), "test") {
            r.push(files[i].clone());
            assert(views(r@) =~= views(before).push(all[i as int]));
        }
        i += 1;
    }
    assert(all.take(i as int) =~= all);
    part(&r, 0, n)
}

/// `p` is the plan for a task that the files match, the best first.
pub open spec fn is_plan(p: Plan, scored: Seq<Seq<char>>, strong: bool) -> bool {
    &&& match p.edit {
        Some(e) => scored.len() > 0 && e@ == scored[0],
        None => scored.len() == 0,
    }
    &&& views(p.read_first@) == slice_of(scored, 0, 3)
    &&& views(p.coupled@) == slice_of(scored, 1, 5)
    &&& views(p.verify@) == tests_among(scored, 3)
    &&& p.risk == if scored.len() == 0 {
        Risk::Unknown
    } else if strong {
        Risk::Low
    } else {
        Risk::Moderate
    }
}

/// The plan for a task, from the files that match it, the best first: the first is the one to edit,
/// the first three are to be read, the next four may be coupled with it, and up to three tests among
/// all of them verify the change. `strong` tells whether the first file matches strongly.
pub fn hologram_plan(scored: &Vec<String>, strong: bool) -> (p: Plan)
    ensures
        is_plan(p, views(scored@), strong),
{
    Plan {
        edit: if scored.len() > 0 {
            Some(scored[0].clone())
        } else {
            None
        },
        verify: first_tests(scored, 3),
        read_first: part(scored, 0, 3),
        coupled: part(scored, 1, 5),
        risk: if scored.len() == 0 {
            Risk::Unknown
        } else if strong {
            Risk::Low
        } else {
            Risk::Moderate
        },
    }
}

/// The name of a risk.
pub open spec fn risk_text(r: Risk) -> Seq<char> {
    match r {
        Risk::Unknown => "unknown"@,
        Risk::Low => "low"@,
        Risk::Moderate => "moderate"@,
    }
}

impl Risk {
    /// The name of the risk.
    pub fn name(&self) -> (s: &'static str)
        ensures
            s@ == risk_text(*self),
    {
        match self {
            Risk::Unknown => "unknown",
            Risk::Low => "low",
            Risk::Moderate => "moderate",
        }
    }
}

/// How often a phrase with these flags counts in a plan.
pub open spec fn times_in_plan(flags: int) -> int {
    if count_in(flags) >= 31 {
        1
    } else {
        count_in(flags)
    }
}

/// How often a phrase counts in a plan: as often as its flags say, or once where they hold no count.
pub fn plan_count(flags: u8) -> (n: u32)
    ensures
        n == times_in_plan(flags as int),
{
    let n: u32 = unpack_count(flags);
    if n >= 31 {
        1
    } else {
        n
    }
}

/// The weight of a phrase with these flags in a plan.
pub open spec fn weight_in_plan(flags: int) -> int {
    if score_in(flags) > 0 {
        5
    } else {
        1
    }
}

/// The weight of a phrase in a plan: 5 for a definition, else 1.
pub fn plan_weight(flags: u8) -> (w: u32)
    ensures
        w == weight_in_plan(flags as int),
{
    if unpack_is_def(flags) > 0 {
        5
    } else {
        1
    }
}

// ---------------------------------------------------------------------------------------------
// Laws
// ---------------------------------------------------------------------------------------------
/// The defining file is that of the first use that is stored as a definition, whatever else is stored
/// of it; there is none exactly where no use is stored as one.
pub proof fn law_first_definition(uses: Seq<NameUse>)
    ensures
        first_definition(uses) is None <==> forall|i: int|
            0 <= i < uses.len() ==> (#[trigger] uses[i]).flags % 4 < 2,
        first_definition(uses) is Some ==> exists|i: int|
            {
                &&& 0 <= i < uses.len()
                &&& (#[trigger] uses[i]).file == first_definition(uses)->0
                &&& uses[i].flags % 4 >= 2
                &&& forall|j: int| 0 <= j < i ==> (#[trigger] uses[j]).flags % 4 < 2
            },
    decreases uses.len(),
{
    if uses.len() > 0 {
        if score_in(uses[0].flags as int) >= 1 {
            assert(uses[0].flags % 4 >= 2);
        } else {
            assert(uses[0].flags % 4 < 2);
            let rest = uses.drop_first();
            law_first_definition(rest);
            assert forall|i: int| 1 <= i < uses.len() implies uses[i] == rest[i - 1] by {}
            if first_definition(rest) is None {
                assert forall|i: int| 0 <= i < uses.len() implies (#[trigger] uses[i]).flags % 4 < 2 by {
                    if i > 0 {
                        assert(rest[i - 1].flags % 4 < 2);
                    }
                }
            } else {
                let k = choose|i: int|
                    {
                        &&& 0 <= i < rest.len()
                        &&& (#[trigger] rest[i]).file == first_definition(rest)->0
                        &&& rest[i].flags % 4 >= 2
                        &&& forall|j: int| 0 <= j < i ==> (#[trigger] rest[j]).flags % 4 < 2
                    };
                assert(uses[k + 1] == rest[k]);
                assert forall|j: int| 0 <= j < k + 1 implies (#[trigger] uses[j]).flags % 4 < 2 by {
                    if j > 0 {
                        assert(rest[j - 1].flags % 4 < 2);
                    }
                }
            }
        }
    }
}

/// Who calls a name: with no definition stored, every use; otherwise every use as often as it is
/// there, in order, but those in the file of the use `i` that is the first stored as a definition.
pub proof fn law_callers_are_outside(uses: Seq<NameUse>, i: int, u: NameUse)
    ensures
        (forall|j: int| 0 <= j < uses.len() ==> (#[trigger] uses[j]).flags % 4 < 2) ==> calls(uses)
            == uses,
        0 <= i < uses.len() && uses[i].flags % 4 >= 2 && (forall|j: int|
            0 <= j < i ==> (#[trigger] uses[j]).flags % 4 < 2) ==> calls(uses).to_multiset().count(u)
            == if u.file == uses[i].file {
            0
        } else {
            uses.to_multiset().count(u)
        },
        keeps_order(calls(uses), uses),
{
    law_first_definition(uses);
    lemma_filter_keeps(uses, outside(first_definition(uses)));
    if forall|j: int| 0 <= j < uses.len() ==> (#[trigger] uses[j]).flags % 4 < 2 {
        lemma_filter_all(uses, outside(first_definition(uses)));
    }
    if 0 <= i < uses.len() && uses[i].flags % 4 >= 2 && (forall|j: int|
        0 <= j < i ==> (#[trigger] uses[j]).flags % 4 < 2) {
        let k = choose|k: int|
            {
                &&& 0 <= k < uses.len()
                &&& (#[trigger] uses[k]).file == first_definition(uses)->0
                &&& uses[k].flags % 4 >= 2
                &&& forall|j: int| 0 <= j < k ==> (#[trigger] uses[j]).flags % 4 < 2
            };
        assert(k == i) by {
            if k < i {
                assert(uses[k].flags % 4 < 2);
            } else if i < k {
                assert(uses[i].flags % 4 < 2);
            }
        }
    }
}

/// `d` is the directory of the file `p`: all that stands before the last slash, or the path itself
/// where it has none.
pub open spec fn is_directory_of(d: Seq<char>, p: Seq<char>) -> bool {
    ||| !p.contains('/') && d == p
    ||| exists|name: Seq<char>| !name.contains('/') && p == #[trigger] (d.push('/') + name)
}

/// Every file has one directory, and it is what a file is grouped by.
pub proof fn law_module_is_directory(p: Seq<char>)
    ensures
        is_directory_of(module_of(p), p),
        forall|d: Seq<char>| #[trigger] is_directory_of(d, p) ==> d == module_of(p),
{
    assert forall|d: Seq<char>| #[trigger] is_directory_of(d, p) implies d == module_of(p) by {
        if !p.contains('/') && d == p {
            law_last_index_parts(Seq::empty(), '/', p);
        } else {
            let name = choose|name: Seq<char>|
                !name.contains('/') && p == #[trigger] (d.push('/') + name);
            law_last_index_parts(d, '/', name);
            assert(p.take(d.len() as int) =~= d);
        }
    }
    let k = last_index(p, '/');
    lemma_last_index(p, '/');
    if k >= 0 {
        let name = p.skip(k + 1);
        let d = p.take(k);
        assert(p =~= d.push('/') + name);
        assert forall|i: int| 0 <= i < name.len() implies name[i] != '/' by {
            assert(p[k + 1 + i] != '/');
        }
    }
}

/// What may be coupled with a file in secret: of the files that share its phrases, exactly those in
/// another directory, each as often as it shares one. A directory below that of the file, or above
/// it, is another one.
pub proof fn law_elsewhere_is_another_directory(
    file: Seq<char>,
    paths: Seq<Seq<char>>,
    d: Seq<char>,
    p: Seq<char>,
    e: Seq<char>,
)
    requires
        is_directory_of(d, file),
        is_directory_of(e, p),
    ensures
        d == e ==> elsewhere(file, paths).to_multiset().count(p) == 0,
        d != e ==> elsewhere(file, paths).to_multiset().count(p) == paths.to_multiset().count(p),
        keeps_order(elsewhere(file, paths), paths),
{
    law_module_is_directory(file);
    law_module_is_directory(p);
    lemma_filter_keeps(paths, |q: Seq<char>| module_of(q) != module_of(file));
}

/// Of the files of a directory those in a directory below it are elsewhere, and those beside it are
/// not.
pub proof fn law_below_is_elsewhere(
    d: Seq<char>,
    file: Seq<char>,
    below: Seq<char>,
    name: Seq<char>,
)
    requires
        !file.contains('/'),
        !name.contains('/'),
    ensures
        elsewhere(d.push('/') + file, seq![(d.push('/') + below).push('/') + name]).len() == 1,
        elsewhere(d.push('/') + file, seq![d.push('/') + name]).len() == 0,
        elsewhere((d.push('/') + below).push('/') + file, seq![d.push('/') + name]).len() == 1,
{
    reveal_with_fuel(Seq::filter, 2);
    let sub = d.push('/') + below;
    law_last_index_parts(d, '/', file);
    law_last_index_parts(d, '/', name);
    law_last_index_parts(sub, '/', name);
    law_last_index_parts(sub, '/', file);
    assert((d.push('/') + file).take(d.len() as int) =~= d);
    assert((d.push('/') + name).take(d.len() as int) =~= d);
    assert((sub.push('/') + name).take(sub.len() as int) =~= sub);
    assert((sub.push('/') + file).take(sub.len() as int) =~= sub);
    assert(sub.len() > d.len());
    let a = seq![sub.push('/') + name];
    let b = seq![d.push('/') + name];
    assert(a.drop_last() =~= Seq::<Seq<char>>::empty());
    assert(b.drop_last() =~= Seq::<Seq<char>>::empty());
}

/// The hidden dependencies of a file: at most 20, each in another directory and weighted by how often
/// it shares a phrase, none before one that weighs more; one that is in another directory is left out
/// only where 20 others weigh as much.
pub proof fn law_hidden_dependencies(
    file: Seq<char>,
    sharing: Seq<Seq<char>>,
    r: Seq<(String, u64)>,
)
    requires
        are_hidden_deps(r, file, sharing),
    ensures
        r.len() <= 20,
        forall|i: int|
            0 <= i < r.len() ==> sharing.contains((#[trigger] r[i]).0@) && !is_directory_of(
                module_of(file),
                r[i].0@,
            ) && r[i].1 == capped(sharing.to_multiset().count(r[i].0@)),
        forall|i: int, j: int| 0 <= i < j < r.len() ==> (#[trigger] r[i]).1 >= (#[trigger] r[j]).1,
        forall|i: int, p: Seq<char>|
            0 <= i < r.len() && sharing.contains(p) && !#[trigger] is_directory_of(module_of(file), p)
                && !has_entry(r, p) ==> r.len() == 20 && (#[trigger] r[i]).1 >= capped(
                sharing.to_multiset().count(p),
            ),
        forall|p: Seq<char>|
            sharing.contains(p) && !#[trigger] is_directory_of(module_of(file), p) ==> r.len() > 0,
{
    broadcast use vstd::seq_lib::group_to_multiset_ensures;

    let far = elsewhere(file, sharing);
    let items = choose|items: Seq<(String, u32)>|
        ones(items, elsewhere(file, sharing)) && #[trigger] ranks(r, items, 20);
    law_ranks(r, items, 20);
    lemma_filter_keeps(sharing, |q: Seq<char>| module_of(q) != module_of(file));
    assert forall|k: Seq<char>| #[trigger] weight_of(items, k) == far.to_multiset().count(k) by {
        lemma_ones_count(items, far, k);
    }
    assert forall|k: Seq<char>| #[trigger] has_item(items, k) == far.contains(k) by {
        if has_item(items, k) {
            let i = choose|i: int| 0 <= i < items.len() && (#[trigger] items[i]).0@ == k;
            assert(far[i] == k);
        }
        if far.contains(k) {
            let i = choose|i: int| 0 <= i < far.len() && far[i] == k;
            assert(items[i].0@ == k);
        }
    }
    assert forall|i: int| 0 <= i < r.len() implies sharing.contains((#[trigger] r[i]).0@)
        && !is_directory_of(module_of(file), r[i].0@) && r[i].1 == capped(
        sharing.to_multiset().count(r[i].0@),
    ) by {
        let k = r[i].0@;
        law_module_is_directory(k);
        assert(far.contains(k));
        assert(far.to_multiset().count(k) > 0);
    }
    assert forall|p: Seq<char>|
        sharing.contains(p) && !#[trigger] is_directory_of(module_of(file), p) implies has_item(
        items,
        p,
    ) && weight_of(items, p) == sharing.to_multiset().count(p) by {
        law_module_is_directory(p);
        assert(sharing.to_multiset().count(p) > 0);
        assert(far.to_multiset().count(p) > 0);
    }
    assert forall|p: Seq<char>|
        sharing.contains(p) && !#[trigger] is_directory_of(module_of(file), p) implies r.len() > 0 by {
        if r.len() == 0 {
            assert(!has_entry(r, p));
            assert(has_item(items, p));
        }
    }
}

/// What is listed once for each time weighs as much as it occurs.
proof fn lemma_ones_count(items: Seq<(String, u32)>, keys: Seq<Seq<char>>, k: Seq<char>)
    requires
        ones(items, keys),
    ensures
        weight_of(items, k) == keys.to_multiset().count(k),
    decreases items.len(),
{
    broadcast use vstd::seq_lib::group_to_multiset_ensures;

    if items.len() > 0 {
        assert forall|i: int| 0 <= i < items.drop_last().len() implies (
        #[trigger] items.drop_last()[i]).0@ == keys.drop_last()[i] && items.drop_last()[i].1 == 1 by {
            assert(items[i].0@ == keys[i]);
        }
        lemma_ones_count(items.drop_last(), keys.drop_last(), k);
        assert(keys =~= keys.drop_last().push(keys.last()));
        assert(items[items.len() - 1].0@ == keys[keys.len() - 1]);
    } else {
        assert(!keys.contains(k));
    }
}

/// What the weight of a key is made of: what is added for that key, and nothing else.
pub proof fn law_weights_add_up(items: Seq<(String, u32)>, more: Seq<(String, u32)>, k: Seq<char>)
    ensures
        weight_of(items + more, k) == weight_of(items, k) + weight_of(more, k),
        !has_item(items, k) ==> weight_of(items, k) == 0,
        items.len() == 1 && items[0].0@ == k ==> weight_of(items, k) == items[0].1,
    decreases more.len(),
{
    if !has_item(items, k) {
        lemma_no_weight(items, k);
    }
    if items.len() == 1 {
        reveal_with_fuel(weight_of, 2);
    }
    if more.len() == 0 {
        assert(items + more =~= items);
    } else {
        law_weights_add_up(items, more.drop_last(), k);
        assert((items + more).drop_last() =~= items + more.drop_last());
    }
}

/// The phrases that a file defines are those stored with a score of one or two, whatever else is
/// stored of them.
pub proof fn law_defined_by_score(rows: Seq<(String, u8)>, r: (String, u8))
    ensures
        defined(rows).to_multiset().count(r) == if r.1 % 4 >= 2 {
            rows.to_multiset().count(r)
        } else {
            0
        },
        keeps_order(defined(rows), rows),
{
    lemma_filter_keeps(rows, |x: (String, u8)| score_in(x.1 as int) >= 1);
}

/// The phrases that tell where a change is felt are those stored with a score of one or two.
pub proof fn law_telling_by_score(rows: Seq<(String, u8, u32)>, r: (String, u8, u32))
    ensures
        telling(rows).to_multiset().count(r) == if r.1 % 4 >= 2 {
            rows.to_multiset().count(r)
        } else {
            0
        },
        keeps_order(telling(rows), rows),
{
    lemma_filter_keeps(rows, |x: (String, u8, u32)| score_in(x.1 as int) > 0);
}

/// The files that are proposed for verification are those of the rows stored with a score of one or
/// two, one for each such row and in the order of the rows.
pub proof fn law_defining_by_score(rows: Seq<(String, u8)>, r: (String, u8))
    ensures
        defining(Seq::empty()).len() == 0,
        r.1 % 4 >= 2 ==> defining(rows.push(r)) == defining(rows).push(r.0@),
        r.1 % 4 < 2 ==> defining(rows.push(r)) == defining(rows),
{
    reveal(Seq::filter);
    assert(rows.push(r).drop_last() =~= rows);
    if r.1 % 4 >= 2 {
        assert(score_in(r.1 as int) > 0);
        assert(defining(rows.push(r)) =~= defining(rows).push(r.0@));
    }
}

/// A part of a list from one place to another holds what stands there, and as much as there is.
pub proof fn law_slice<T>(s: Seq<T>, from: int, to: int, i: int)
    requires
        0 <= from,
    ensures
        from <= i < to && i < s.len() ==> slice_of(s, from, to).len() > i - from && slice_of(
            s,
            from,
            to,
        )[i - from] == s[i],
        from + slice_of(s, from, to).len() <= s.len() || slice_of(s, from, to).len() == 0,
        from + slice_of(s, from, to).len() <= to || slice_of(s, from, to).len() == 0,
{
}

/// The tests among files: those whose path holds `test`, the first ones first, until there are enough.
pub proof fn law_tests_among(files: Seq<Seq<char>>, f: Seq<char>, n: int)
    requires
        0 <= n,
    ensures
        tests_among(Seq::empty(), n).len() == 0,
        occurs(f, "test"@) && tests_among(files, n).len() < n ==> tests_among(files.push(f), n)
            == tests_among(files, n).push(f),
        !occurs(f, "test"@) || tests_among(files, n).len() >= n ==> tests_among(files.push(f), n)
            == tests_among(files, n),
        tests_among(files, n).len() <= n,
{
    reveal(Seq::filter);
    assert(files.push(f).drop_last() =~= files);
    let a = files.filter(|x: Seq<char>| occurs(x, "test"@));
    if occurs(f, "test"@) && tests_among(files, n).len() < n {
        assert(tests_among(files.push(f), n) =~= tests_among(files, n).push(f));
    } else {
        assert(tests_among(files.push(f), n) =~= tests_among(files, n));
    }
}

/// A trace goes on until it is as deep as asked or until a step reaches nothing new; the first step is
/// always taken unless none is asked for.
pub proof fn law_trace_goes_on(t: Trace)
    ensures
        t.hops@.len() >= t.depth ==> !t.goes_on(),
        t.hops@.len() == 0 && t.depth > 0 ==> t.goes_on(),
        t.hops@.len() > 0 && t.hops@.last()@.len() == 0 ==> !t.goes_on(),
        0 < t.hops@.len() < t.depth && t.hops@.last()@.len() > 0 ==> t.goes_on(),
{
}

/// A step adds a file behind those that it reached before, where neither it nor an earlier step
/// reached it.
pub proof fn law_step_adds_in_order(found: Seq<Seq<char>>, p: Seq<char>, hops: Seq<Vec<String>>)
    ensures
        newly_reached(Seq::empty(), hops).len() == 0,
        !is_reached(hops, p) && !newly_reached(found, hops).contains(p) ==> newly_reached(
            found.push(p),
            hops,
        ) == newly_reached(found, hops).push(p),
        is_reached(hops, p) || newly_reached(found, hops).contains(p) ==> newly_reached(
            found.push(p),
            hops,
        ) == newly_reached(found, hops),
{
    assert(found.push(p).drop_last() =~= found);
}

/// The names of the risks.
pub proof fn law_risk_names(r: Risk)
    ensures
        risk_text(r) == "unknown"@ <==> r == Risk::Unknown,
        risk_text(r) == "low"@ <==> r == Risk::Low,
        risk_text(r) == "moderate"@ <==> r == Risk::Moderate,
{
    reveal_strlit("unknown");
    reveal_strlit("low");
    reveal_strlit("moderate");
    assert("unknown"@.len() == 7 && "low"@.len() == 3 && "moderate"@.len() == 8);
}

/// The blast radius: at most 20 files, each with all that it weighs, none before a heavier one; a file
/// is left out only where 20 others weigh as much.
pub proof fn law_blast_radius(r: Seq<(String, u64)>, sharing: Seq<(String, u32)>, k: Seq<char>)
    requires
        is_radius(r, sharing),
    ensures
        r.len() <= 20,
        forall|i: int|
            0 <= i < r.len() ==> has_item(sharing, (#[trigger] r[i]).0@) && r[i].1 == capped(
                weight_of(sharing, r[i].0@),
            ),
        forall|i: int, j: int| 0 <= i < j < r.len() ==> (#[trigger] r[i]).1 >= (#[trigger] r[j]).1,
        has_item(sharing, k) && !has_entry(r, k) ==> r.len() == 20 && r[19].1 >= capped(
            weight_of(sharing, k),
        ),
{
    law_ranks(r, sharing, 20);
}

/// The candidates to verify by: at most 10 paths, each of a defining row and with the number of its
/// defining rows, none before one with more; a path is left out only where 10 others have as many.
pub proof fn law_candidates(r: Seq<(String, u64)>, rows: Seq<(String, u8)>, p: Seq<char>)
    requires
        are_candidates(r, rows),
    ensures
        r.len() <= 10,
        forall|i: int|
            0 <= i < r.len() ==> defining(rows).contains((#[trigger] r[i]).0@) && r[i].1 == capped(
                defining(rows).to_multiset().count(r[i].0@),
            ),
        forall|i: int, j: int| 0 <= i < j < r.len() ==> (#[trigger] r[i]).1 >= (#[trigger] r[j]).1,
        defining(rows).contains(p) && !has_entry(r, p) ==> r.len() == 10 && r[9].1 >= capped(
            defining(rows).to_multiset().count(p),
        ),
{
    let items = choose|items: Seq<(String, u32)>|
        ones(items, defining(rows)) && #[trigger] ranks(r, items, 10);
    law_ones_ranked(r, items, defining(rows), 10, p);
}

/// What ranking keys by how often they occur comes to: at most `n`, each with its number, none before
/// one with more; a key is left out only where `n` others occur as often.
pub proof fn law_ones_ranked(
    r: Seq<(String, u64)>,
    items: Seq<(String, u32)>,
    keys: Seq<Seq<char>>,
    n: int,
    k: Seq<char>,
)
    requires
        ones(items, keys),
        ranks(r, items, n),
        0 < n,
    ensures
        r.len() <= n,
        distinct_keys(r),
        forall|i: int|
            0 <= i < r.len() ==> keys.contains((#[trigger] r[i]).0@) && r[i].1 == capped(
                keys.to_multiset().count(r[i].0@),
            ),
        forall|i: int, j: int| 0 <= i < j < r.len() ==> (#[trigger] r[i]).1 >= (#[trigger] r[j]).1,
        keys.contains(k) && !has_entry(r, k) ==> r.len() == n && r[n - 1].1 >= capped(
            keys.to_multiset().count(k),
        ),
{
    law_ranks(r, items, n);
    assert forall|x: Seq<char>| #[trigger] weight_of(items, x) == keys.to_multiset().count(x) by {
        lemma_ones_count(items, keys, x);
    }
    assert forall|i: int| 0 <= i < r.len() implies keys.contains((#[trigger] r[i]).0@) by {
        let x = r[i].0@;
        assert(has_item(items, x));
        let a = choose|a: int| 0 <= a < items.len() && (#[trigger] items[a]).0@ == x;
        assert(keys[a] == x);
    }
    if keys.contains(k) {
        let a = choose|a: int| 0 <= a < keys.len() && keys[a] == k;
        assert(items[a].0@ == k);
        assert(has_item(items, k));
    }
}

/// What a plan holds: the best file to edit, the best three to read, the four behind the best as those
/// that may be coupled, and up to three tests. The risk is unknown where there is no file, and else as
/// the match is strong or not.
pub proof fn law_plan(p: Plan, scored: Seq<Seq<char>>, strong: bool, i: int)
    requires
        is_plan(p, scored, strong),
    ensures
        p.edit is Some <==> scored.len() > 0,
        p.edit is Some ==> p.edit->0@ == scored[0],
        p.read_first@.len() == if scored.len() < 3 {
            scored.len() as int
        } else {
            3
        },
        0 <= i < p.read_first@.len() ==> p.read_first@[i]@ == scored[i],
        p.coupled@.len() == if scored.len() == 0 {
            0
        } else if scored.len() < 5 {
            scored.len() - 1
        } else {
            4
        },
        0 <= i < p.coupled@.len() ==> p.coupled@[i]@ == scored[i + 1],
        p.verify@.len() <= 3,
        views(p.verify@) == tests_among(scored, 3),
        p.risk == Risk::Unknown <==> scored.len() == 0,
        p.risk == Risk::Low <==> scored.len() > 0 && strong,
        p.risk == Risk::Moderate <==> scored.len() > 0 && !strong,
{
    assert(views(p.read_first@).len() == p.read_first@.len());
    assert(views(p.coupled@).len() == p.coupled@.len());
    assert(views(p.verify@).len() == p.verify@.len());
    if 0 <= i < p.read_first@.len() {
        assert(views(p.read_first@)[i] == p.read_first@[i]@);
    }
    if 0 <= i < p.coupled@.len() {
        assert(views(p.coupled@)[i] == p.coupled@[i]@);
    }
}

/// What flags say in a plan: a definition weighs five times as much as another use, and a phrase
/// counts as often as its count says unless that did not fit.
pub proof fn law_flags_in_plan(flags: int)
    requires
        0 <= flags < 256,
    ensures
        flags % 4 >= 2 ==> weight_in_plan(flags) == 5,
        flags % 4 < 2 ==> weight_in_plan(flags) == 1,
        flags / 8 < 31 ==> times_in_plan(flags) == flags / 8,
        flags / 8 == 31 ==> times_in_plan(flags) == 1,
{
}

/// A file is reached where one of the steps reached it, whichever it is.
pub proof fn law_reached_by_a_step(hops: Seq<Vec<String>>, h: Vec<String>, p: Seq<char>)
    ensures
        !is_reached(Seq::empty(), p),
        is_reached(hops.push(h), p) <==> is_reached(hops, p) || views(h@).contains(p),
{
    let all = hops.push(h);
    if is_reached(all, p) {
        let i = choose|i: int| 0 <= i < all.len() && views((#[trigger] all[i])@).contains(p);
        if i < hops.len() {
            assert(views(hops[i]@).contains(p));
        }
    }
    if is_reached(hops, p) {
        let i = choose|i: int| 0 <= i < hops.len() && views((#[trigger] hops[i])@).contains(p);
        assert(views(all[i]@).contains(p));
    }
    if views(h@).contains(p) {
        assert(views(all[hops.len() as int]@).contains(p));
    }
}

} // verus!
