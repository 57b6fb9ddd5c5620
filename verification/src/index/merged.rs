//! The results of the workers, brought together.

use vstd::multiset::Multiset;
use vstd::prelude::*;

use super::contexts::{counts_match, lists, ContextTable};
use super::extract::{FileStats, WorkerResult};
use super::occurrences::{apart, counted, PhraseTables};

verus! {

broadcast use vstd::seq::group_seq_axioms;

/// What all workers together found.
pub struct Merged {
    /// The occurrences, summed up.
    pub tables: PhraseTables,
    /// The left contexts, each phrase with the words that the workers sampled for it.
    pub left_ctx: ContextTable,
    /// The files.
    pub stats: Vec<FileStats>,
    /// For each file its path and the digest of its content.
    pub digests: Vec<(String, String)>,
}

/// The first `i` entries of `t` hold the phrase `k`, or the entry `i` does and its first `j` words
/// hold `c`.
spec fn passed(t: ContextTable, k: Seq<char>, c: Seq<char>, i: int, j: int) -> bool {
    t.has(k) && (t.index@[k] < i || (t.index@[k] == i && exists|q: int|
        0 <= q < j && q < t.entries@[i].counts@.len() && (#[trigger] t.entries@[i].counts@[q]).0@
            == c))
}

/// How often the phrase `k` with the word `c` is counted when the first `i` entries of `t`, and the
/// first `j` words of the next, were added to `base`.
spec fn so_far(
    base: Multiset<(Seq<char>, Seq<char>)>,
    t: ContextTable,
    k: Seq<char>,
    c: Seq<char>,
    i: int,
    j: int,
) -> nat {
    if passed(t, k, c, i, j) {
        counted(base.count((k, c)) + t@.count((k, c))) as nat
    } else {
        base.count((k, c))
    }
}

impl Merged {
    /// The tables are in order.
    pub open spec fn wf(&self) -> bool {
        self.tables.wf() && self.left_ctx.wf()
    }

    /// Nothing yet.
    pub fn new() -> (m: Merged)
        ensures
            m.wf(),
            m.tables@.len() == 0,
            m.left_ctx@ == Multiset::<(Seq<char>, Seq<char>)>::empty(),
            m.stats@.len() == 0,
            m.digests@.len() == 0,
    {
        Merged {
            tables: PhraseTables::new(),
            left_ctx: ContextTable::new(),
            stats: Vec::new(),
            digests: Vec::new(),
        }
    }

    /// Adds the result of one more worker, which read other files than those before.
    pub fn absorb(&mut self, w: WorkerResult)
        requires
            old(self).wf(),
            w.wf(),
            apart(old(self).tables@, w.tables@),
        ensures
            final(self).wf(),
            final(self).tables@ == old(self).tables@ + w.tables@,
            forall|k: Seq<char>, c: Seq<char>| #[trigger]
                final(self).left_ctx@.count((k, c)) == counted(
                    old(self).left_ctx@.count((k, c)) + w.left_ctx@.count((k, c)),
                ),
            final(self).stats@ == old(self).stats@ + w.stats@,
            final(self).digests@ == old(self).digests@ + w.digests@,
    {
        let ghost base = self.left_ctx@;
        let ghost wc = w.left_ctx;
        let WorkerResult { tables, left_ctx, stats, digests, track: _ } = w;
        self.tables.merge(tables);
        let mut i: usize = 0;
        while i < left_ctx.entries.len()
            invariant
                i <= left_ctx.entries@.len(),
                left_ctx == wc,
                wc.wf(),
                base == old(self).left_ctx@,
                old(self).left_ctx.wf(),
                self.left_ctx.wf(),
                self.stats == old(self).stats,
                self.digests == old(self).digests,
                self.tables.wf(),
                self.tables@ == old(self).tables@ + w.tables@,
                forall|k: Seq<char>, c: Seq<char>| #[trigger]
                    self.left_ctx@.count((k, c)) == so_far(base, wc, k, c, i as int, 0),
            decreases left_ctx.entries@.len() - i,
        {
            let mut j: usize = 0;
            let ghost counts = wc.entries@[i as int].counts@;
            let ghost p = wc.entries@[i as int].phrase@;
            assert(counts_match(counts, p, wc@));
            while j < left_ctx.entries[i].counts.len()
                invariant
                    i < left_ctx.entries@.len(),
                    left_ctx == wc,
                    counts == wc.entries@[i as int].counts@,
                    p == wc.entries@[i as int].phrase@,
                    counts_match(counts, p, wc@),
                    j <= counts.len(),
                    wc.wf(),
                    base == old(self).left_ctx@,
                    old(self).left_ctx.wf(),
                    self.left_ctx.wf(),
                    self.stats == old(self).stats,
                    self.digests == old(self).digests,
                            self.tables.wf(),
                    self.tables@ == old(self).tables@ + w.tables@,
                            forall|k: Seq<char>, c: Seq<char>| #[trigger]
                        self.left_ctx@.count((k, c)) == so_far(base, wc, k, c, i as int, j as int),
                decreases counts.len() - j,
            {
                let ghost c0 = counts[j as int].0@;
                let ghost before = self.left_ctx@;
                proof {
                    assert(!passed(wc, p, c0, i as int, j as int));
                    assert(before.count((p, c0)) == base.count((p, c0)));
                    assert(counts[j as int].1 == wc@.count((p, c0)));
                }
                self.left_ctx.add(
                    left_ctx.entries[i].phrase.clone(),
                    left_ctx.entries[i].counts[j].0.clone(),
                    left_ctx.entries[i].counts[j].1,
                );
                proof {
                    broadcast use {
                        vstd::multiset::lemma_update_same,
                        vstd::multiset::lemma_update_different,
                    };

                    assert forall|k: Seq<char>, c: Seq<char>| #[trigger]
                        self.left_ctx@.count((k, c)) == so_far(base, wc, k, c, i as int, j + 1) by {
                        if k == p && c == c0 {
                            assert(wc.entries@[i as int].counts@[j as int].0@ == c);
                            assert(passed(wc, k, c, i as int, j + 1));
                        } else {
                            assert(before.count((k, c)) == self.left_ctx@.count((k, c)));
                            if passed(wc, k, c, i as int, j as int) {
                                assert(passed(wc, k, c, i as int, j + 1));
                            }
                            if passed(wc, k, c, i as int, j + 1) && wc.index@[k] == i {
                                assert(k == p);
                                let q = choose|q: int|
                                    0 <= q < j + 1 && q < wc.entries@[i as int].counts@.len() && (
                                    #[trigger] wc.entries@[i as int].counts@[q]).0@ == c;
                                assert(q < j);
                                assert(passed(wc, k, c, i as int, j as int));
                            }
                        }
                    }
                }
                j += 1;
            }
            proof {
                assert forall|k: Seq<char>, c: Seq<char>| #[trigger]
                    self.left_ctx@.count((k, c)) == so_far(base, wc, k, c, i + 1, 0) by {
                    old(self).left_ctx.lemma_count_fits(k, c);
                    if wc.has(k) && wc.index@[k] == i {
                        assert(k == p);
                        if wc@.count((k, c)) > 0 {
                            assert(lists(counts, c));
                            let q = choose|q: int|
                                0 <= q < counts.len() && (#[trigger] counts[q]).0@ == c;
                            assert(passed(wc, k, c, i as int, j as int));
                        }
                    }
                }
            }
            i += 1;
        }
        proof {
            assert forall|k: Seq<char>, c: Seq<char>| #[trigger]
                self.left_ctx@.count((k, c)) == counted(
                    base.count((k, c)) + wc@.count((k, c)),
                ) by {
                old(self).left_ctx.lemma_count_fits(k, c);
                if wc@.count((k, c)) > 0 {
                    assert(wc.has(k));
                    assert(passed(wc, k, c, i as int, 0));
                }
            }
        }
        let mut stats = stats;
        let mut digests = digests;
        self.stats.append(&mut stats);
        self.digests.append(&mut digests);
    }
}

} // verus!
