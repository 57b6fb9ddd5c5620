//! Which of the rows that a search came to count together.

use std::collections::HashMap;
use vstd::prelude::*;

verus! {

broadcast use {vstd::seq::group_seq_axioms, vstd::std_specs::hash::group_hash_axioms};

/// How a row was found.
#[derive(Clone, Copy, Debug, PartialEq, Eq, Structural)]
pub enum Tier {
    /// The phrase is the term.
    Exact,
    /// The phrase starts with the term.
    Prefix,
    /// The phrase holds the term.
    Inside,
}

/// A row that a search came to: its file, the place of the term among the terms searched by, and how
/// it was found.
#[derive(Clone, Copy, Debug, PartialEq, Eq, Structural)]
pub struct Found {
    pub file: i64,
    pub term: usize,
    pub tier: Tier,
}

/// The rows of one file that were found for one term in one tier, by their places among all rows.
pub struct Part {
    pub tier: Tier,
    pub term: usize,
    pub rows: Vec<usize>,
}

/// The rows of one file.
pub struct FileRows {
    pub file: i64,
    pub parts: Vec<Part>,
}

/// The part `p` holds, in their order, some of the first `n` rows, all of its file, its term and its
/// tier, and at least one.
pub open spec fn part_fits(p: Part, file: i64, found: Seq<Found>, n: int) -> bool {
    &&& p.rows@.len() > 0
    &&& forall|r: int|
        0 <= r < p.rows@.len() ==> (#[trigger] p.rows@[r]) < n && found[p.rows@[r] as int] == (Found {
            file,
            term: p.term,
            tier: p.tier,
        })
    &&& forall|r: int, s: int|
        0 <= r < s < p.rows@.len() ==> (#[trigger] p.rows@[r]) < (#[trigger] p.rows@[s])
}

/// The parts of the file are in order: no two have the same tier and term.
pub open spec fn file_fits(f: FileRows, found: Seq<Found>, n: int) -> bool {
    &&& f.parts@.len() > 0
    &&& forall|p: int| 0 <= p < f.parts@.len() ==> part_fits(#[trigger] f.parts@[p], f.file, found, n)
    &&& forall|p: int, q: int|
        0 <= p < q < f.parts@.len() ==> ((#[trigger] f.parts@[p]).tier, f.parts@[p].term) != ((
        #[trigger] f.parts@[q]).tier, f.parts@[q].term)
}

/// The part `p` holds the row `i`.
pub open spec fn part_holds(p: Part, i: usize) -> bool {
    p.rows@.contains(i)
}

/// A part of the file holds the row `i`.
pub open spec fn file_holds(f: FileRows, i: usize) -> bool {
    exists|p: int| 0 <= p < f.parts@.len() && part_holds(#[trigger] f.parts@[p], i)
}

/// A part of a file of `g` holds the row `i`.
pub open spec fn held(g: Seq<FileRows>, i: usize) -> bool {
    exists|a: int| 0 <= a < g.len() && #[trigger] file_holds(g[a], i)
}

/// `g` holds each of the first `n` rows once: no two of its files are the same, no two parts of a
/// file have the same tier and term, and each row is in the part of its file, its tier and its term.
pub open spec fn groups(g: Seq<FileRows>, found: Seq<Found>, n: int) -> bool {
    &&& forall|a: int| 0 <= a < g.len() ==> file_fits(#[trigger] g[a], found, n)
    &&& forall|a: int, b: int|
        0 <= a < b < g.len() ==> (#[trigger] g[a]).file != (#[trigger] g[b]).file
    &&& forall|i: usize| i < n ==> #[trigger] held(g, i)
}

/// A part that fits fits when there are more rows.
proof fn lemma_part_grows(p: Part, file: i64, found: Seq<Found>, n: int)
    requires
        part_fits(p, file, found, n),
    ensures
        part_fits(p, file, found, n + 1),
{
}

/// A file that fits fits when there are more rows.
proof fn lemma_file_grows(f: FileRows, found: Seq<Found>, n: int)
    requires
        file_fits(f, found, n),
    ensures
        file_fits(f, found, n + 1),
{
    assert forall|p: int| 0 <= p < f.parts@.len() implies part_fits(
        #[trigger] f.parts@[p],
        f.file,
        found,
        n + 1,
    ) by {
        lemma_part_grows(f.parts@[p], f.file, found, n);
    }
}

/// Puts the rows that a search came to in groups: by file, and within a file by tier and term.
pub fn group_rows(found: &Vec<Found>) -> (g: Vec<FileRows>)
    ensures
        groups(g@, found@, found@.len() as int),
{
    let mut g: Vec<FileRows> = Vec::new();
    let mut at: HashMap<i64, usize> = HashMap::new();
    let mut i: usize = 0;
    while i < found.len()
        invariant
            i <= found@.len(),
            groups(g@, found@, i as int),
            forall|f: i64| #[trigger]
                at@.contains_key(f) ==> at@[f] < g@.len() && g@[at@[f] as int].file == f,
            forall|a: int| 0 <= a < g@.len() ==> at@.contains_key((#[trigger] g@[a]).file),
        decreases found@.len() - i,
    {
        let x: Found = found[i];
        let ghost before = g@;
        match at.get(&x.file) {
            Some(a) => {
                let a: usize = *a;
                add_row(&mut g[a], found, i);
                proof {
                    lemma_group_added(before, g@, found@, i, a as int);
                }
            },
            None => {
                let mut rows: Vec<usize> = Vec::new();
                rows.push(i);
                let mut parts: Vec<Part> = Vec::new();
                parts.push(Part { tier: x.tier, term: x.term, rows });
                let n: usize = g.len();
                g.push(FileRows { file: x.file, parts });
                at.insert(x.file, n);
                proof {
                    let f = g@[n as int];
                    assert(f.parts@[0].rows@[0] == i);
                    assert(part_holds(f.parts@[0], i));
                    assert(file_holds(f, i));
                    assert(part_fits(f.parts@[0], f.file, found@, i + 1));
                    assert(file_fits(f, found@, i + 1));
                    lemma_group_pushed(before, f, found@, i);
                }
            },
        }
        i += 1;
    }
    g
}

/// Adds the row `i` to the rows of its file.
fn add_row(f: &mut FileRows, found: &Vec<Found>, i: usize)
    requires
        i < found@.len(),
        file_fits(*old(f), found@, i as int),
        found@[i as int].file == old(f).file,
    ensures
        file_fits(*final(f), found@, i + 1),
        final(f).file == old(f).file,
        file_holds(*final(f), i),
        forall|k: usize| #[trigger] file_holds(*old(f), k) ==> file_holds(*final(f), k),
{
    let x: Found = found[i];
    let ghost before = f.parts@;
    let mut p: usize = 0;
    while p < f.parts.len() && !(f.parts[p].tier == x.tier && f.parts[p].term == x.term)
        invariant
            p <= f.parts@.len(),
            *f == *old(f),
            forall|q: int|
                0 <= q < p ==> ((#[trigger] f.parts@[q]).tier, f.parts@[q].term) != (x.tier, x.term),
        decreases f.parts@.len() - p,
    {
        p += 1;
    }
    if p < f.parts.len() {
        f.parts[p].rows.push(i);
        proof {
            let after = f.parts@;
            assert(after.len() == before.len());
            assert(after[p as int].rows@ == before[p as int].rows@.push(i));
            assert(part_fits(before[p as int], f.file, found@, i as int));
            assert forall|q: int| 0 <= q < after.len() implies part_fits(
                #[trigger] after[q],
                f.file,
                found@,
                i + 1,
            ) by {
                assert(part_fits(before[q], f.file, found@, i as int));
                if q != p {
                    assert(after[q] == before[q]);
                }
            }
            assert forall|q: int, r: int| 0 <= q < r < after.len() implies ((
            #[trigger] after[q]).tier, after[q].term) != ((#[trigger] after[r]).tier, after[r].term) by {
                assert((before[q].tier, before[q].term) != (before[r].tier, before[r].term));
            }
            assert(after[p as int].rows@[before[p as int].rows@.len() as int] == i);
            assert(part_holds(after[p as int], i));
            assert forall|k: usize| #[trigger] file_holds(*old(f), k) implies file_holds(*f, k) by {
                let q = choose|q: int| 0 <= q < before.len() && part_holds(#[trigger] before[q], k);
                let r = choose|r: int| 0 <= r < before[q].rows@.len() && before[q].rows@[r] == k;
                assert(after[q].rows@[r] == k);
                assert(part_holds(after[q], k));
            }
        }
    } else {
        let mut rows: Vec<usize> = Vec::new();
        rows.push(i);
        f.parts.push(Part { tier: x.tier, term: x.term, rows });
        proof {
            let after = f.parts@;
            assert(after[p as int].rows@[0] == i);
            assert(part_holds(after[p as int], i));
            assert forall|q: int| 0 <= q < after.len() implies part_fits(
                #[trigger] after[q],
                f.file,
                found@,
                i + 1,
            ) by {
                if q < before.len() {
                    assert(part_fits(before[q], f.file, found@, i as int));
                    assert(after[q] == before[q]);
                }
            }
            assert forall|q: int, r: int| 0 <= q < r < after.len() implies ((
            #[trigger] after[q]).tier, after[q].term) != ((#[trigger] after[r]).tier, after[r].term) by {
                if r < before.len() {
                    assert((before[q].tier, before[q].term) != (before[r].tier, before[r].term));
                } else {
                    assert(after[q] == before[q]);
                }
            }
            assert forall|k: usize| #[trigger] file_holds(*old(f), k) implies file_holds(*f, k) by {
                let q = choose|q: int| 0 <= q < before.len() && part_holds(#[trigger] before[q], k);
                assert(after[q] == before[q]);
                assert(part_holds(after[q], k));
            }
        }
    }
}

/// The groups with a row added to the file at `a`.
proof fn lemma_group_added(
    before: Seq<FileRows>,
    after: Seq<FileRows>,
    found: Seq<Found>,
    i: usize,
    a: int,
)
    requires
        groups(before, found, i as int),
        0 <= a < before.len(),
        after.len() == before.len(),
        forall|b: int| 0 <= b < before.len() && b != a ==> #[trigger] after[b] == before[b],
        after[a].file == before[a].file,
        file_fits(after[a], found, i + 1),
        file_holds(after[a], i),
        forall|k: usize| #[trigger] file_holds(before[a], k) ==> file_holds(after[a], k),
    ensures
        groups(after, found, i + 1),
{
    assert forall|b: int| 0 <= b < after.len() implies file_fits(
        #[trigger] after[b],
        found,
        i + 1,
    ) by {
        if b != a {
            assert(file_fits(before[b], found, i as int));
            lemma_file_grows(before[b], found, i as int);
        }
    }
    assert forall|b: int, c: int| 0 <= b < c < after.len() implies (#[trigger] after[b]).file != (
    #[trigger] after[c]).file by {
        assert(before[b].file != before[c].file);
    }
    assert forall|k: usize| k < i + 1 implies #[trigger] held(after, k) by {
        if k < i {
            assert(held(before, k));
            let b = choose|b: int| 0 <= b < before.len() && #[trigger] file_holds(before[b], k);
            if b != a {
                assert(after[b] == before[b]);
            }
            assert(file_holds(after[b], k));
        } else {
            assert(file_holds(after[a], k));
        }
    }
}

/// The groups with a file added that holds one more row.
proof fn lemma_group_pushed(before: Seq<FileRows>, f: FileRows, found: Seq<Found>, i: usize)
    requires
        groups(before, found, i as int),
        file_fits(f, found, i + 1),
        file_holds(f, i),
        forall|a: int| 0 <= a < before.len() ==> (#[trigger] before[a]).file != f.file,
    ensures
        groups(before.push(f), found, i + 1),
{
    let after = before.push(f);
    assert forall|b: int| 0 <= b < after.len() implies file_fits(
        #[trigger] after[b],
        found,
        i + 1,
    ) by {
        if b < before.len() {
            assert(file_fits(before[b], found, i as int));
            lemma_file_grows(before[b], found, i as int);
        }
    }
    assert forall|b: int, c: int| 0 <= b < c < after.len() implies (#[trigger] after[b]).file != (
    #[trigger] after[c]).file by {
        if c < before.len() {
            assert(before[b].file != before[c].file);
        } else {
            assert(before[b].file != f.file);
        }
    }
    assert forall|k: usize| k < i + 1 implies #[trigger] held(after, k) by {
        if k < i {
            assert(held(before, k));
            let b = choose|b: int| 0 <= b < before.len() && #[trigger] file_holds(before[b], k);
            assert(after[b] == before[b]);
            assert(file_holds(after[b], k));
        } else {
            assert(after[before.len() as int] == f);
            assert(file_holds(after[before.len() as int], k));
        }
    }
}

/// A term counts at most once for a file in each tier, however many of its rows were found.
pub proof fn law_term_counts_once(g: Seq<FileRows>, found: Seq<Found>, n: int, a: int, p: int, q: int)
    requires
        groups(g, found, n),
        0 <= a < g.len(),
        0 <= p < g[a].parts@.len(),
        0 <= q < g[a].parts@.len(),
        g[a].parts@[p].tier == g[a].parts@[q].tier,
        g[a].parts@[p].term == g[a].parts@[q].term,
    ensures
        p == q,
{
    let parts = g[a].parts@;
    assert(file_fits(g[a], found, n));
    if p < q {
        assert((parts[p].tier, parts[p].term) != (parts[q].tier, parts[q].term));
    } else if q < p {
        assert((parts[q].tier, parts[q].term) != (parts[p].tier, parts[p].term));
    }
}

/// No row counts twice: a row is in one part of one file.
pub proof fn law_row_counts_once(
    g: Seq<FileRows>,
    found: Seq<Found>,
    n: int,
    i: usize,
    a: int,
    p: int,
    b: int,
    q: int,
)
    requires
        groups(g, found, n),
        0 <= a < g.len(),
        0 <= p < g[a].parts@.len(),
        part_holds(g[a].parts@[p], i),
        0 <= b < g.len(),
        0 <= q < g[b].parts@.len(),
        part_holds(g[b].parts@[q], i),
    ensures
        a == b,
        p == q,
{
    assert(file_fits(g[a], found, n) && file_fits(g[b], found, n));
    let x = g[a].parts@[p];
    let y = g[b].parts@[q];
    assert(part_fits(x, g[a].file, found, n) && part_fits(y, g[b].file, found, n));
    let r = choose|r: int| 0 <= r < x.rows@.len() && x.rows@[r] == i;
    let s = choose|s: int| 0 <= s < y.rows@.len() && y.rows@[s] == i;
    assert(found[i as int] == (Found { file: g[a].file, term: x.term, tier: x.tier }));
    assert(found[i as int] == (Found { file: g[b].file, term: y.term, tier: y.tier }));
    if a < b {
        assert(g[a].file != g[b].file);
    } else if b < a {
        assert(g[b].file != g[a].file);
    }
    if p < q {
        assert((g[a].parts@[p].tier, g[a].parts@[p].term) != (
            g[a].parts@[q].tier,
            g[a].parts@[q].term,
        ));
    } else if q < p {
        assert((g[a].parts@[q].tier, g[a].parts@[q].term) != (
            g[a].parts@[p].tier,
            g[a].parts@[p].term,
        ));
    }
}

/// Where a row is found: in the group of its file, among those of its term and its tier, and in no
/// group of another file.
pub proof fn law_row_in_its_group(g: Seq<FileRows>, found: Seq<Found>, i: usize)
    requires
        groups(g, found, found.len() as int),
        i < found.len(),
    ensures
        exists|a: int, p: int|
            {
                &&& 0 <= a < g.len()
                &&& g[a].file == found[i as int].file
                &&& 0 <= p < g[a].parts@.len()
                &&& (#[trigger] g[a].parts@[p]).term == found[i as int].term
                &&& g[a].parts@[p].tier == found[i as int].tier
                &&& g[a].parts@[p].rows@.contains(i)
            },
        forall|a: int, p: int|
            0 <= a < g.len() && 0 <= p < g[a].parts@.len() && (
            #[trigger] g[a].parts@[p]).rows@.contains(i) ==> g[a].file == found[i as int].file,
{
    assert(held(g, i));
    let a = choose|a: int| 0 <= a < g.len() && #[trigger] file_holds(g[a], i);
    let p = choose|p: int| 0 <= p < g[a].parts@.len() && part_holds(#[trigger] g[a].parts@[p], i);
    assert(file_fits(g[a], found, found.len() as int));
    assert(part_fits(g[a].parts@[p], g[a].file, found, found.len() as int));
    let r = choose|r: int| 0 <= r < g[a].parts@[p].rows@.len() && g[a].parts@[p].rows@[r] == i;
    assert(found[g[a].parts@[p].rows@[r] as int].term == g[a].parts@[p].term);
    assert forall|b: int, q: int|
        0 <= b < g.len() && 0 <= q < g[b].parts@.len() && (
        #[trigger] g[b].parts@[q]).rows@.contains(i) implies g[b].file == found[i as int].file by {
        assert(file_fits(g[b], found, found.len() as int));
        assert(part_fits(g[b].parts@[q], g[b].file, found, found.len() as int));
        let s = choose|s: int| 0 <= s < g[b].parts@[q].rows@.len() && g[b].parts@[q].rows@[s] == i;
        assert(found[g[b].parts@[q].rows@[s] as int].file == g[b].file);
    }
}

/// A file has one group, and no group is empty.
pub proof fn law_one_group_per_file(g: Seq<FileRows>, found: Seq<Found>, a: int, b: int)
    requires
        groups(g, found, found.len() as int),
        0 <= a < g.len(),
        0 <= b < g.len(),
    ensures
        g[a].file == g[b].file ==> a == b,
        exists|i: int| 0 <= i < found.len() && (#[trigger] found[i]).file == g[a].file,
{
    if a < b {
        assert(g[a].file != g[b].file);
    } else if b < a {
        assert(g[b].file != g[a].file);
    }
    assert(file_fits(g[a], found, found.len() as int));
    assert(part_fits(g[a].parts@[0], g[a].file, found, found.len() as int));
    let i = g[a].parts@[0].rows@[0] as int;
    assert(found[i].file == g[a].file);
}

} // verus!
