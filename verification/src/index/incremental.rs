//! What a build that reads only the changed files leaves: the index that reading all files would
//! leave.

use vstd::prelude::*;

use super::extract::{file_stats, occs_at, sites, FileStats};
use super::occurrences::{
    counted, in_file, keys_tell, law_row_counts_word, lemma_filter_none, lemma_filter_some, occ_table,
    of_phrase, tells, word_in, Occ, OccEntry, OccKey, PhraseTables,
};
use super::rows::{
    are_rows, count_at, df_of, found_texts, id_of, is_numbered, is_row, key_before, keyed_texts,
    lemma_all_listed, numbers_ok, phrase_id, row_of, rows_with, stats_of, takes_known, PhraseList,
    PhraseRow, Row, RowKey,
};
use crate::order::{arranges, reordered};
use crate::text::lines;

verus! {

broadcast use vstd::seq::group_seq_axioms;

// ---------------------------------------------------------------------------------------------
// Indexes
// ---------------------------------------------------------------------------------------------
/// What is stored in an index.
pub struct Index {
    /// The phrases by their numbers.
    pub names: Map<i64, Seq<char>>,
    /// For each phrase and file what the occurrences there come to.
    pub rows: Map<RowKey, OccEntry>,
    /// The length of each file, in phrases.
    pub lens: Map<i64, usize>,
}

/// An index with nothing in it.
pub open spec fn empty_index() -> Index {
    Index { names: Map::empty(), rows: Map::empty(), lens: Map::empty() }
}

/// The occurrences in the file `f`.
pub open spec fn of_file(h: Seq<Occ>, f: i64) -> Seq<Occ> {
    h.filter(|o: Occ| o.file == f)
}

/// How many phrases with different hashes occur in the file `f`.
pub open spec fn token_count(h: Seq<Occ>, f: i64) -> nat {
    of_file(h, f).map_values(|o: Occ| o.key).to_set().len()
}

/// The index has a row for the word `w` in the file `f`.
pub open spec fn has_row(ix: Index, w: Seq<char>, f: i64) -> bool {
    exists|p: i64| #[trigger]
        ix.names.contains_key(p) && ix.names[p] == w && ix.rows.contains_key((p, f))
}

/// The row for the phrase with the number `p` in the file `f` tells how often the phrase occurs
/// there and where first.
pub open spec fn row_tells(ix: Index, h: Seq<Occ>, p: i64, f: i64) -> bool {
    let hits = word_in(h, ix.names[p], f);
    let e = ix.rows[(p, f)];
    &&& ix.names.contains_key(p)
    &&& hits.len() > 0
    &&& e.count == counted(hits.len())
    &&& e.first_line == hits[0].line as usize
}

/// The index tells of the occurrences `h` in the files `files`: no phrase has two numbers, every
/// row tells of a word in a file, every word in a file has a row, and every file has its length.
pub open spec fn describes(ix: Index, h: Seq<Occ>, files: spec_fn(i64) -> bool) -> bool {
    &&& forall|a: i64, b: i64|
        #[trigger] ix.names.contains_key(a) && #[trigger] ix.names.contains_key(b) && ix.names[a]
            == ix.names[b] ==> a == b
    &&& forall|p: i64, f: i64| #[trigger] ix.rows.contains_key((p, f)) ==> row_tells(ix, h, p, f)
    &&& forall|w: Seq<char>, f: i64| (#[trigger] word_in(h, w, f)).len() > 0 ==> has_row(ix, w, f)
    &&& forall|f: i64| #[trigger]
        ix.lens.contains_key(f) <==> files(f)
    &&& forall|f: i64| #[trigger] ix.lens.contains_key(f) ==> ix.lens[f] == token_count(h, f)
}

/// The index holds that the word `w` occurs `count` times in the file `f`, and first in the line
/// `line`.
pub open spec fn holds_fact(ix: Index, w: Seq<char>, f: i64, count: u32, line: usize) -> bool {
    exists|p: i64|
        {
            &&& #[trigger] ix.names.contains_key(p)
            &&& ix.names[p] == w
            &&& ix.rows.contains_key((p, f))
            &&& ix.rows[(p, f)].count == count
            &&& ix.rows[(p, f)].first_line == line
        }
}

/// Two indexes hold the same: of the same words in the same files, the same counts and first lines,
/// and the same lengths of the same files.
pub open spec fn hold_the_same(a: Index, b: Index) -> bool {
    &&& forall|w: Seq<char>, f: i64, count: u32, line: usize| #[trigger]
        holds_fact(a, w, f, count, line) <==> holds_fact(b, w, f, count, line)
    &&& a.lens == b.lens
}

/// Indexes that tell of the same occurrences in the same files hold the same.
pub proof fn law_description_unique(a: Index, b: Index, h: Seq<Occ>, files: spec_fn(i64) -> bool)
    requires
        describes(a, h, files),
        describes(b, h, files),
    ensures
        hold_the_same(a, b),
{
    assert forall|w: Seq<char>, f: i64, count: u32, line: usize| #[trigger]
        holds_fact(a, w, f, count, line) <==> holds_fact(b, w, f, count, line) by {
        if holds_fact(a, w, f, count, line) {
            lemma_fact_shared(a, b, h, files, w, f, count, line);
        }
        if holds_fact(b, w, f, count, line) {
            lemma_fact_shared(b, a, h, files, w, f, count, line);
        }
    }
    assert forall|f: i64| #[trigger] a.lens.contains_key(f) <==> b.lens.contains_key(f) by {
        assert(a.lens.contains_key(f) <==> files(f));
        assert(b.lens.contains_key(f) <==> files(f));
    }
    assert(a.lens =~= b.lens);
}

/// What one of two indexes that tell of the same occurrences holds, the other holds.
proof fn lemma_fact_shared(
    a: Index,
    b: Index,
    h: Seq<Occ>,
    files: spec_fn(i64) -> bool,
    w: Seq<char>,
    f: i64,
    count: u32,
    line: usize,
)
    requires
        describes(a, h, files),
        describes(b, h, files),
        holds_fact(a, w, f, count, line),
    ensures
        holds_fact(b, w, f, count, line),
{
    let p = choose|p: i64|
        {
            &&& #[trigger] a.names.contains_key(p)
            &&& a.names[p] == w
            &&& a.rows.contains_key((p, f))
            &&& a.rows[(p, f)].count == count
            &&& a.rows[(p, f)].first_line == line
        };
    assert(row_tells(a, h, p, f));
    assert(word_in(h, w, f).len() > 0);
    assert(has_row(b, w, f));
    let q = choose|q: i64| #[trigger]
        b.names.contains_key(q) && b.names[q] == w && b.rows.contains_key((q, f));
    assert(row_tells(b, h, q, f));
}

// ---------------------------------------------------------------------------------------------
// Builds
// ---------------------------------------------------------------------------------------------
/// What a build comes to before it is stored: what the files that were read hold, the phrases with
/// their numbers, the rows, and what was found of each file that was to be read as a whole.
pub struct Build {
    pub tables: PhraseTables,
    pub list: PhraseList,
    pub rows: Seq<Row>,
    pub stats: Seq<FileStats>,
}

/// The file `f` is among those that were to be read.
pub open spec fn has_stats(stats: Seq<FileStats>, f: i64) -> bool {
    exists|i: int| 0 <= i < stats.len() && (#[trigger] stats[i]).file == f
}

/// The build reads files among `changed` and lays out what they hold for an index that knows the
/// phrases `known`, where the hashes tell the words apart.
pub open spec fn is_build(
    b: Build,
    known: Map<Seq<char>, i64>,
    max_id: int,
    changed: spec_fn(i64) -> bool,
) -> bool {
    &&& b.tables.wf()
    &&& keys_tell(b.tables@)
    &&& forall|i: int| 0 <= i < b.tables@.len() ==> changed((#[trigger] b.tables@[i]).file)
    &&& b.list.wf()
    &&& reordered(found_texts(b.list.phrases@), keyed_texts(b.tables.phrases@))
    &&& numbers_ok(known, max_id)
    &&& is_numbered(b.list.phrases@, known, max_id)
    &&& are_rows(b.rows, occ_table(b.tables.occs), b.list.ids@)
    &&& forall|i: int|
        0 <= i < b.stats.len() ==> changed((#[trigger] b.stats[i]).file) && b.stats[i].token_len
            == token_count(b.tables@, b.stats[i].file)
}

/// `known` holds the numbers of the phrases `names`.
pub open spec fn knows(known: Map<Seq<char>, i64>, names: Map<i64, Seq<char>>) -> bool {
    &&& forall|p: i64| #[trigger]
        names.contains_key(p) ==> known.contains_key(names[p]) && known[names[p]] == p
    &&& forall|w: Seq<char>| #[trigger]
        known.contains_key(w) ==> names.contains_key(known[w]) && names[known[w]] == w
}

/// `p` is the number of a phrase of the list that the index did not know.
pub open spec fn is_new_id(list: Seq<PhraseRow>, p: i64) -> bool {
    exists|i: int| 0 <= i < list.len() && (#[trigger] list[i]).is_new && list[i].id == p
}

/// Some row has the key `k`.
pub open spec fn has_key(rows: Seq<Row>, k: RowKey) -> bool {
    exists|i: int| 0 <= i < rows.len() && (#[trigger] rows[i]).0 == k
}

/// Storing the build in the index `before` leaves the index `now`: the new phrases are added, what
/// was stored of the changed files is taken out, and what was found of those that were to be read is
/// put in.
pub open spec fn leaves(
    before: Index,
    changed: spec_fn(i64) -> bool,
    b: Build,
    now: Index,
) -> bool {
    &&& forall|p: i64| #[trigger]
        now.names.contains_key(p) <==> before.names.contains_key(p) || is_new_id(b.list.phrases@, p)
    &&& forall|p: i64| #[trigger]
        before.names.contains_key(p) ==> now.names[p] == before.names[p]
    &&& forall|i: int|
        0 <= i < b.list.phrases@.len() && (#[trigger] b.list.phrases@[i]).is_new
            ==> now.names[b.list.phrases@[i].id] == b.list.phrases@[i].text@
    &&& forall|k: RowKey| #[trigger]
        now.rows.contains_key(k) <==> (before.rows.contains_key(k) && !changed(k.1)) || has_key(
            b.rows,
            k,
        )
    &&& forall|k: RowKey| #[trigger]
        before.rows.contains_key(k) && !changed(k.1) ==> now.rows[k] == before.rows[k]
    &&& forall|i: int| 0 <= i < b.rows.len() ==> now.rows[(#[trigger] b.rows[i]).0] == b.rows[i].2
    &&& forall|f: i64| #[trigger]
        now.lens.contains_key(f) <==> (before.lens.contains_key(f) && !changed(f)) || has_stats(
            b.stats,
            f,
        )
    &&& forall|f: i64| #[trigger]
        before.lens.contains_key(f) && !changed(f) ==> now.lens[f] == before.lens[f]
    &&& forall|i: int|
        0 <= i < b.stats.len() ==> now.lens[(#[trigger] b.stats[i]).file] == b.stats[i].token_len
}

/// The occurrences `now` are those of `read` in the changed files, and those of `before` in the
/// others.
pub open spec fn takes_over(
    now: Seq<Occ>,
    before: Seq<Occ>,
    changed: spec_fn(i64) -> bool,
    read: Seq<Occ>,
) -> bool {
    forall|f: i64| #[trigger]
        of_file(now, f) == if changed(f) {
            of_file(read, f)
        } else {
            of_file(before, f)
        }
}

/// The files that an index knows when the changed ones among `before` were taken out and those that
/// were to be read were put in.
pub open spec fn files_after(
    before: spec_fn(i64) -> bool,
    changed: spec_fn(i64) -> bool,
    stats: Seq<FileStats>,
) -> spec_fn(i64) -> bool {
    |f: i64| (before(f) && !changed(f)) || has_stats(stats, f)
}

/// The occurrences of a word in a file are among those in the file.
proof fn lemma_word_in_file(h: Seq<Occ>, w: Seq<char>, f: i64)
    ensures
        word_in(h, w, f) == of_file(h, f).filter(|o: Occ| o.phrase == w),
    decreases h.len(),
{
    reveal(Seq::filter);
    if h.len() > 0 {
        let t = h.drop_last();
        let x = h.last();
        lemma_word_in_file(t, w, f);
        if x.file == f {
            assert(of_file(h, f).drop_last() =~= of_file(t, f));
        }
    }
}

/// A phrase of the list is the word of some occurrence with its hash.
proof fn lemma_listed_word(tables: PhraseTables, list: PhraseList, i: int) -> (q: int)
    requires
        tables.wf(),
        reordered(found_texts(list.phrases@), keyed_texts(tables.phrases@)),
        0 <= i < list.phrases@.len(),
    ensures
        0 <= q < tables@.len(),
        tables@[q].key == list.phrases@[i].key,
        tables@[q].phrase == list.phrases@[i].text@,
{
    let v = found_texts(list.phrases@);
    let w = keyed_texts(tables.phrases@);
    let p = choose|p: Seq<usize>| #[trigger]
        arranges(p, 0, w.len() as int) && forall|k: int|
            0 <= k < v.len() ==> #[trigger] v[k] == w[p[k] as int];
    assert(v[i] == w[p[i] as int]);
    let e = tables.phrases@[p[i] as int];
    assert(tells(e, tables@));
    lemma_first_of_phrase(tables@, e.key)
}

/// The first occurrence of a phrase that occurs.
proof fn lemma_first_of_phrase(h: Seq<Occ>, key: u64) -> (q: int)
    requires
        of_phrase(h, key).len() > 0,
    ensures
        0 <= q < h.len(),
        h[q].key == key,
        h[q] == of_phrase(h, key)[0],
    decreases h.len(),
{
    reveal(Seq::filter);
    let t = h.drop_last();
    if of_phrase(t, key).len() > 0 {
        let q = lemma_first_of_phrase(t, key);
        q
    } else {
        h.len() - 1
    }
}

/// Different phrases of the list are different words.
proof fn lemma_listed_distinct(b: Build, i: int, j: int)
    requires
        b.tables.wf(),
        keys_tell(b.tables@),
        b.list.wf(),
        reordered(found_texts(b.list.phrases@), keyed_texts(b.tables.phrases@)),
        0 <= i < j < b.list.phrases@.len(),
    ensures
        b.list.phrases@[i].text@ != b.list.phrases@[j].text@,
{
    let x = lemma_listed_word(b.tables, b.list, i);
    let y = lemma_listed_word(b.tables, b.list, j);
    assert(b.tables@[x].key == b.tables@[y].key <==> b.tables@[x].phrase == b.tables@[y].phrase);
    assert(b.list.phrases@[i].id != b.list.phrases@[j].id);
}

/// A phrase of the list is new exactly where the index did not know it; where it did, it has the
/// number that the index knows, and else one that no phrase of the index has.
proof fn lemma_listed_id(
    b: Build,
    known: Map<Seq<char>, i64>,
    max_id: int,
    changed: spec_fn(i64) -> bool,
    i: int,
)
    requires
        is_build(b, known, max_id, changed),
        0 <= i < b.list.phrases@.len(),
    ensures
        ({
            let x = b.list.phrases@[i];
            &&& x.is_new == !known.contains_key(x.text@)
            &&& !x.is_new ==> x.id == known[x.text@]
            &&& x.is_new ==> x.id > max_id
        }),
{
    let l = b.list.phrases@;
    assert(l[i].id == phrase_id(l, known, max_id, i));
    if i > 0 {
        lemma_listed_distinct(b, i - 1, i);
    }
    assert(takes_known(l, known, i) == known.contains_key(l[i].text@));
}

/// The names of the index after a build.
proof fn lemma_names_after(
    before: Index,
    known: Map<Seq<char>, i64>,
    max_id: int,
    changed: spec_fn(i64) -> bool,
    b: Build,
    now: Index,
)
    requires
        knows(known, before.names),
        is_build(b, known, max_id, changed),
        leaves(before, changed, b, now),
        forall|x: i64, y: i64|
            #[trigger] before.names.contains_key(x) && #[trigger] before.names.contains_key(y)
                && before.names[x] == before.names[y] ==> x == y,
    ensures
        forall|x: i64, y: i64|
            #[trigger] now.names.contains_key(x) && #[trigger] now.names.contains_key(y)
                && now.names[x] == now.names[y] ==> x == y,
        forall|i: int|
            0 <= i < b.list.phrases@.len() ==> now.names.contains_key(
                (#[trigger] b.list.phrases@[i]).id,
            ) && now.names[b.list.phrases@[i].id] == b.list.phrases@[i].text@,
{
    let l = b.list.phrases@;
    assert forall|i: int| 0 <= i < l.len() implies now.names.contains_key((#[trigger] l[i]).id)
        && now.names[l[i].id] == l[i].text@ by {
        lemma_listed_id(b, known, max_id, changed, i);
        if l[i].is_new {
            assert(is_new_id(l, l[i].id));
        } else {
            assert(known.contains_key(l[i].text@));
            assert(before.names.contains_key(l[i].id));
        }
    }
    assert forall|x: i64, y: i64|
        #[trigger] now.names.contains_key(x) && #[trigger] now.names.contains_key(y)
            && now.names[x] == now.names[y] implies x == y by {
        let old_x = before.names.contains_key(x);
        let old_y = before.names.contains_key(y);
        if !old_x {
            assert(is_new_id(l, x));
            let i = choose|i: int| 0 <= i < l.len() && (#[trigger] l[i]).is_new && l[i].id == x;
            lemma_listed_id(b, known, max_id, changed, i);
            if old_y {
                assert(known.contains_key(before.names[y]));
            } else {
                assert(is_new_id(l, y));
                let j = choose|j: int| 0 <= j < l.len() && (#[trigger] l[j]).is_new && l[j].id == y;
                if i < j {
                    lemma_listed_distinct(b, i, j);
                } else if j < i {
                    lemma_listed_distinct(b, j, i);
                }
            }
        } else if !old_y {
            assert(is_new_id(l, y));
            let j = choose|j: int| 0 <= j < l.len() && (#[trigger] l[j]).is_new && l[j].id == y;
            lemma_listed_id(b, known, max_id, changed, j);
            assert(known.contains_key(before.names[x]));
        }
    }
}

/// The number of the phrase with a hash that occurs names the word.
proof fn lemma_named_word(b: Build, q: int)
    requires
        b.tables.wf(),
        keys_tell(b.tables@),
        b.list.wf(),
        reordered(found_texts(b.list.phrases@), keyed_texts(b.tables.phrases@)),
        0 <= q < b.tables@.len(),
    ensures
        exists|i: int|
            {
                &&& 0 <= i < b.list.phrases@.len()
                &&& (#[trigger] b.list.phrases@[i]).text@ == b.tables@[q].phrase
                &&& b.list.phrases@[i].id == id_of(b.list.ids@, b.tables@[q].key)
            },
{
    let key = b.tables@[q].key;
    lemma_all_listed(b.tables, b.list);
    assert(b.tables.index@.contains_key(key));
    assert(b.list.ids@.contains_key(key));
    let i = choose|i: int|
        0 <= i < b.list.phrases@.len() && (#[trigger] b.list.phrases@[i]).key == key;
    let x = lemma_listed_word(b.tables, b.list, i);
    assert(b.tables@[x].key == b.tables@[q].key <==> b.tables@[x].phrase == b.tables@[q].phrase);
    assert(b.list.phrases@[i].text@ == b.tables@[q].phrase);
}

/// A build that reads the changed files and leaves the rest of the index as it was leaves an index
/// that tells of all files as they are now.
pub proof fn law_build_describes(
    before: Index,
    old: Seq<Occ>,
    files: spec_fn(i64) -> bool,
    known: Map<Seq<char>, i64>,
    max_id: int,
    changed: spec_fn(i64) -> bool,
    b: Build,
    now: Index,
    all: Seq<Occ>,
)
    requires
        describes(before, old, files),
        knows(known, before.names),
        is_build(b, known, max_id, changed),
        leaves(before, changed, b, now),
        takes_over(all, old, changed, b.tables@),
    ensures
        describes(now, all, files_after(files, changed, b.stats)),
{
    let h = b.tables@;
    let t = occ_table(b.tables.occs);
    let l = b.list.phrases@;
    lemma_names_after(before, known, max_id, changed, b, now);
    assert forall|w: Seq<char>, f: i64| #[trigger] word_in(all, w, f) == if changed(f) {
        word_in(h, w, f)
    } else {
        word_in(old, w, f)
    } by {
        lemma_word_in_file(all, w, f);
        lemma_word_in_file(h, w, f);
        lemma_word_in_file(old, w, f);
        assert(of_file(all, f) == if changed(f) {
            of_file(h, f)
        } else {
            of_file(old, f)
        });
    }
    assert forall|p: i64, f: i64| #[trigger] now.rows.contains_key((p, f)) implies row_tells(
        now,
        all,
        p,
        f,
    ) by {
        let k = (p, f);
        if has_key(b.rows, k) {
            let i = choose|i: int| 0 <= i < b.rows.len() && (#[trigger] b.rows[i]).0 == k;
            lemma_new_row_tells(b, i);
            assert(is_row(b.rows[i], t, b.list.ids@));
            let q = choose|q: int| #[trigger] is_word_of(b, i, q);
            let a = choose|a: int|
                {
                    &&& 0 <= a < l.len()
                    &&& (#[trigger] l[a]).text@ == h[q].phrase
                    &&& l[a].id == p
                };
            assert(now.names[l[a].id] == l[a].text@);
            assert(changed(h[q].file));
            assert(word_in(all, now.names[p], f) == word_in(h, h[q].phrase, f));
            assert(now.rows[k] == b.rows[i].2);
        } else {
            assert(before.rows.contains_key(k) && !changed(f));
            assert(row_tells(before, old, p, f));
            assert(now.names[p] == before.names[p]);
            assert(word_in(all, now.names[p], f) == word_in(old, before.names[p], f));
        }
    }
    assert forall|w: Seq<char>, f: i64| (#[trigger] word_in(all, w, f)).len() > 0 implies has_row(
        now,
        w,
        f,
    ) by {
        if changed(f) {
            let p = |o: Occ| o.phrase == w && o.file == f;
            lemma_filter_some(h, p);
            let q = choose|q: int| 0 <= q < h.len() && p(#[trigger] h[q]);
            law_row_counts_word(t, h, q);
            let k: OccKey = (h[q].key, f);
            assert(t.contains_key(k));
            let x = row_of(t, b.list.ids@, k);
            assert(b.rows.contains(x));
            let i = choose|i: int| 0 <= i < b.rows.len() && b.rows[i] == x;
            assert(has_key(b.rows, x.0));
            lemma_named_word(b, q);
            let a = choose|a: int|
                {
                    &&& 0 <= a < l.len()
                    &&& (#[trigger] l[a]).text@ == h[q].phrase
                    &&& l[a].id == id_of(b.list.ids@, h[q].key)
                };
            assert(now.names.contains_key(l[a].id));
            assert(now.rows.contains_key(x.0));
        } else {
            assert(word_in(old, w, f).len() > 0);
            assert(has_row(before, w, f));
            let p = choose|p: i64| #[trigger]
                before.names.contains_key(p) && before.names[p] == w && before.rows.contains_key(
                    (p, f),
                );
            assert(now.names.contains_key(p));
            assert(now.rows.contains_key((p, f)));
        }
    }
    assert forall|f: i64| #[trigger] now.lens.contains_key(f) implies now.lens[f] == token_count(
        all,
        f,
    ) by {
        assert(of_file(all, f) == if changed(f) {
            of_file(h, f)
        } else {
            of_file(old, f)
        });
        if has_stats(b.stats, f) {
            let i = choose|i: int| 0 <= i < b.stats.len() && (#[trigger] b.stats[i]).file == f;
            assert(now.lens[b.stats[i].file] == b.stats[i].token_len);
        } else {
            assert(before.lens.contains_key(f) && !changed(f));
        }
    }
    assert forall|f: i64| #[trigger] now.lens.contains_key(f) <==> files_after(
        files,
        changed,
        b.stats,
    )(f) by {
        assert(before.lens.contains_key(f) <==> files(f));
    }
}

/// The files that the index has rows of the phrase with the number `p` for.
pub open spec fn files_of(ix: Index, p: i64) -> Set<i64> {
    Set::new(|f: i64| ix.rows.contains_key((p, f)))
}

/// Those of the files that did not change.
pub open spec fn kept_files_of(ix: Index, changed: spec_fn(i64) -> bool, p: i64) -> Set<i64> {
    Set::new(|f: i64| ix.rows.contains_key((p, f)) && !changed(f))
}

/// The document frequency that a phrase is scored by is the number of files that the whole index has
/// rows of it for once the build is stored, as far as a counter reaches.
pub proof fn law_frequency_over_whole_index(
    before: Index,
    known: Map<Seq<char>, i64>,
    max_id: int,
    changed: spec_fn(i64) -> bool,
    b: Build,
    now: Index,
    kept: Map<i64, u32>,
    p: i64,
)
    requires
        is_build(b, known, max_id, changed),
        leaves(before, changed, b, now),
        kept_files_of(before, changed, p).finite(),
        count_at(kept, p) == kept_files_of(before, changed, p).len(),
    ensures
        files_of(now, p).finite(),
        df_of(b.rows, kept, p) == counted(files_of(now, p).len()),
{
    let stay = kept_files_of(before, changed, p);
    let mine = rows_with(b.rows, p);
    let files = mine.map_values(|r: Row| r.0.1);
    lemma_rows_with(b.rows, p);
    assert forall|i: int, j: int| 0 <= i < files.len() && 0 <= j < files.len() && i != j implies
        files[i] != files[j] by {
        if i < j {
            assert(key_before(mine[i].0, mine[j].0));
        } else {
            assert(key_before(mine[j].0, mine[i].0));
        }
    }
    files.unique_seq_to_set();
    vstd::seq_lib::seq_to_set_is_finite(files);
    let fresh = files.to_set();
    assert forall|f: i64| #[trigger] fresh.contains(f) implies changed(f) by {
        let i = choose|i: int| 0 <= i < files.len() && files[i] == f;
        assert(b.rows.contains(mine[i]));
        let x = choose|x: int| 0 <= x < b.rows.len() && b.rows[x] == mine[i];
        lemma_new_row_tells(b, x);
        let q = choose|q: int| #[trigger] is_word_of(b, x, q);
        assert(changed(b.tables@[q].file));
    }
    assert forall|f: i64| #[trigger] files_of(now, p).contains(f) <==> (stay + fresh).contains(
        f,
    ) by {
        if has_key(b.rows, (p, f)) {
            let x = choose|x: int| 0 <= x < b.rows.len() && (#[trigger] b.rows[x]).0 == (p, f);
            assert(mine.contains(b.rows[x]));
            let i = choose|i: int| 0 <= i < mine.len() && mine[i] == b.rows[x];
            assert(files[i] == f);
        }
        if fresh.contains(f) {
            let i = choose|i: int| 0 <= i < files.len() && files[i] == f;
            assert(b.rows.contains(mine[i]));
            let x = choose|x: int| 0 <= x < b.rows.len() && b.rows[x] == mine[i];
            assert(b.rows[x].0 == (p, f));
        }
        assert(now.rows.contains_key((p, f)) <==> (before.rows.contains_key((p, f)) && !changed(f))
            || has_key(b.rows, (p, f)));
    }
    assert(files_of(now, p) =~= stay + fresh);
    assert(stay.disjoint(fresh));
    vstd::set_lib::lemma_set_disjoint_lens(stay, fresh);
}

/// The rows of a phrase are those of the rows that have its number, in their order.
proof fn lemma_rows_with(rows: Seq<Row>, p: i64)
    requires
        forall|i: int, j: int|
            0 <= i < j < rows.len() ==> key_before((#[trigger] rows[i]).0, (#[trigger] rows[j]).0),
    ensures
        forall|i: int, j: int|
            0 <= i < j < rows_with(rows, p).len() ==> key_before(
                (#[trigger] rows_with(rows, p)[i]).0,
                (#[trigger] rows_with(rows, p)[j]).0,
            ),
        forall|i: int|
            0 <= i < rows_with(rows, p).len() ==> (#[trigger] rows_with(rows, p)[i]).0.0 == p
                && rows.contains(rows_with(rows, p)[i]),
        forall|r: Row| #[trigger] rows.contains(r) && r.0.0 == p ==> rows_with(rows, p).contains(r),
    decreases rows.len(),
{
    reveal(Seq::filter);
    if rows.len() > 0 {
        let s = rows.drop_last();
        let x = rows.last();
        let before = rows_with(s, p);
        let all = rows_with(rows, p);
        lemma_rows_with(s, p);
        assert(all == if x.0.0 == p {
            before.push(x)
        } else {
            before
        });
        assert forall|i: int| 0 <= i < all.len() implies (#[trigger] all[i]).0.0 == p
            && rows.contains(all[i]) by {
            if i < before.len() {
                assert(all[i] == before[i]);
                let k = choose|k: int| 0 <= k < s.len() && s[k] == before[i];
                assert(rows[k] == all[i]);
            } else {
                assert(rows[rows.len() - 1] == x);
            }
        }
        assert forall|i: int, j: int| 0 <= i < j < all.len() implies key_before(
            (#[trigger] all[i]).0,
            (#[trigger] all[j]).0,
        ) by {
            assert(all[i] == before[i]);
            if j < before.len() {
                assert(all[j] == before[j]);
            } else {
                assert(s.contains(before[i]));
                let k = choose|k: int| 0 <= k < s.len() && s[k] == before[i];
                assert(key_before(rows[k].0, rows[rows.len() - 1].0));
            }
        }
        assert forall|r: Row| #[trigger] rows.contains(r) && r.0.0 == p implies all.contains(r) by {
            let k = choose|k: int| 0 <= k < rows.len() && rows[k] == r;
            if k < s.len() {
                assert(s[k] == r);
                assert(s.contains(r));
                let i = choose|i: int| 0 <= i < before.len() && before[i] == r;
                assert(all[i] == r);
            } else {
                assert(all[before.len() as int] == r);
            }
        }
    }
}

/// The row at `i` is that of the word of the occurrence at `q`.
spec fn is_word_of(b: Build, i: int, q: int) -> bool {
    let h = b.tables@;
    let hits = word_in(h, h[q].phrase, h[q].file);
    &&& 0 <= q < h.len()
    &&& b.rows[i].0.1 == h[q].file
    &&& b.rows[i].0.0 == id_of(b.list.ids@, h[q].key)
    &&& hits.len() > 0
    &&& b.rows[i].2.count == counted(hits.len())
    &&& b.rows[i].2.first_line == hits[0].line as usize
    &&& exists|a: int|
        {
            &&& 0 <= a < b.list.phrases@.len()
            &&& (#[trigger] b.list.phrases@[a]).text@ == h[q].phrase
            &&& b.list.phrases@[a].id == b.rows[i].0.0
        }
}

/// Every row of a build is that of a word in a file.
proof fn lemma_new_row_tells(b: Build, i: int)
    requires
        b.tables.wf(),
        keys_tell(b.tables@),
        b.list.wf(),
        reordered(found_texts(b.list.phrases@), keyed_texts(b.tables.phrases@)),
        are_rows(b.rows, occ_table(b.tables.occs), b.list.ids@),
        0 <= i < b.rows.len(),
    ensures
        exists|q: int| #[trigger] is_word_of(b, i, q),
{
    let h = b.tables@;
    let t = occ_table(b.tables.occs);
    assert(is_row(b.rows[i], t, b.list.ids@));
    let k = choose|k: OccKey| #[trigger]
        t.contains_key(k) && b.rows[i] == row_of(t, b.list.ids@, k);
    let p = |o: Occ| (o.key, o.file) == k;
    assert(in_file(h, k).len() > 0);
    lemma_filter_some(h, p);
    let q = choose|q: int| 0 <= q < h.len() && p(#[trigger] h[q]);
    law_row_counts_word(t, h, q);
    lemma_named_word(b, q);
    assert(is_word_of(b, i, q));
}

/// The length that is found of a file is the number of different hashes of its words.
pub proof fn law_length_counts_words(file: i64, text: Seq<char>, keys: Seq<u64>)
    requires
        keys.len() == sites(lines(text)).len(),
        keys.to_set().len() <= usize::MAX,
    ensures
        file_stats(file, text, keys).token_len == token_count(
            occs_at(sites(lines(text)), file, keys),
            file,
        ),
{
    let h = occs_at(sites(lines(text)), file, keys);
    lemma_filter_all(h, |o: Occ| o.file == file);
    assert(of_file(h, file).map_values(|o: Occ| o.key) =~= keys);
}

/// A file that could not be read, of which there are no occurrences, has the length of one without
/// words.
pub proof fn law_unread_file_is_empty(h: Seq<Occ>, stats: Seq<FileStats>, file: i64)
    requires
        forall|i: int| 0 <= i < h.len() ==> (#[trigger] h[i]).file != file,
        forall|i: int| 0 <= i < stats.len() ==> (#[trigger] stats[i]).file != file,
    ensures
        stats_of(stats, file).file == file,
        stats_of(stats, file).token_len == token_count(h, file),
    decreases stats.len(),
{
    if stats.len() > 0 {
        let s = stats.drop_last();
        assert forall|i: int| 0 <= i < s.len() implies (#[trigger] s[i]).file != file by {
            assert(stats[i].file != file);
        }
        assert(stats[stats.len() - 1].file != file);
        law_unread_file_is_empty(h, s, file);
    } else {
        lemma_filter_none(h, |o: Occ| o.file == file);
        let keys = of_file(h, file).map_values(|o: Occ| o.key);
        assert(keys =~= Seq::<u64>::empty());
        keys.unique_seq_to_set();
    }
}

/// A filter that everything satisfies keeps everything.
pub proof fn lemma_filter_all<T>(s: Seq<T>, p: spec_fn(T) -> bool)
    requires
        forall|i: int| 0 <= i < s.len() ==> p(#[trigger] s[i]),
    ensures
        s.filter(p) == s,
    decreases s.len(),
{
    reveal(Seq::filter);
    if s.len() > 0 {
        lemma_filter_all(s.drop_last(), p);
        assert(s =~= s.drop_last().push(s.last()));
    }
}

/// A build that reads all files into an empty index leaves an index that tells of them.
pub proof fn law_first_build_describes(b: Build, now: Index)
    requires
        is_build(b, Map::empty(), 0, |f: i64| true),
        leaves(empty_index(), |f: i64| true, b, now),
    ensures
        describes(now, b.tables@, |f: i64| has_stats(b.stats, f)),
{
    let every = |f: i64| true;
    let none = |f: i64| false;
    let ix = empty_index();
    let old = Seq::<Occ>::empty();
    reveal(Seq::filter);
    law_build_describes(ix, old, none, Map::empty(), 0, every, b, now, b.tables@);
    assert(files_after(none, every, b.stats) =~= (|f: i64| has_stats(b.stats, f)));
}

/// A build that reads only the changed files leaves what reading all files into an empty index
/// would: the same words in the same files, with the same counts and first lines, and the same
/// lengths of the files.
pub proof fn law_incremental_is_fresh(
    before: Index,
    old: Seq<Occ>,
    files: spec_fn(i64) -> bool,
    known: Map<Seq<char>, i64>,
    max_id: int,
    changed: spec_fn(i64) -> bool,
    some: Build,
    now: Index,
    all: Build,
    anew: Index,
)
    requires
        describes(before, old, files),
        knows(known, before.names),
        is_build(some, known, max_id, changed),
        leaves(before, changed, some, now),
        is_build(all, Map::empty(), 0, |f: i64| true),
        leaves(empty_index(), |f: i64| true, all, anew),
        takes_over(all.tables@, old, changed, some.tables@),
        forall|f: i64| #[trigger]
            has_stats(all.stats, f) <==> files_after(files, changed, some.stats)(f),
    ensures
        hold_the_same(now, anew),
{
    law_build_describes(before, old, files, known, max_id, changed, some, now, all.tables@);
    law_first_build_describes(all, anew);
    let read = |f: i64| has_stats(all.stats, f);
    assert(files_after(files, changed, some.stats) =~= read);
    law_description_unique(now, anew, all.tables@, read);
}

} // verus!
