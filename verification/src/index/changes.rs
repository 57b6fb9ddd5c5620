//! Which files of a repository have to be read again.

use vstd::prelude::*;

use super::cache::Mtime;
use super::occurrences::lemma_filter_none;
use crate::text::str_eq;
use crate::text_map::TextMap;

verus! {

broadcast use vstd::seq::group_seq_axioms;

/// What is known of the files of a repository while they are looked at one by one.
pub struct ChangePlan {
    /// The digests of the build before.
    pub cached: TextMap<String>,
    /// The modification times: those of the build before, replaced as the files are looked at.
    pub mtimes: TextMap<Mtime>,
    /// The digests of the files that were looked at.
    pub digests: TextMap<String>,
    /// The files that may have changed, each with its digest.
    pub changed: Vec<(String, String)>,
}

/// A file whose modification time is `mtime` is as it was: it had that time before, and its digest
/// is known.
pub open spec fn is_fresh(
    mtimes: Map<Seq<char>, Mtime>,
    cached: Map<Seq<char>, String>,
    rel: Seq<char>,
    mtime: Mtime,
) -> bool {
    mtimes.contains_key(rel) && mtimes[rel] == mtime && cached.contains_key(rel)
}

/// The digest of a file is the one that was known of it.
pub open spec fn is_known(
    cached: Map<Seq<char>, String>,
    rel: Seq<char>,
    digest: Seq<char>,
) -> bool {
    cached.contains_key(rel) && cached[rel]@ == digest
}

impl ChangePlan {
    /// The three maps are in order.
    pub open spec fn wf(&self) -> bool {
        self.cached.wf() && self.mtimes.wf() && self.digests.wf()
    }

    /// A plan for files of which the given digests and modification times are known.
    pub fn new(cached: TextMap<String>, mtimes: TextMap<Mtime>) -> (p: ChangePlan)
        requires
            cached.wf(),
            mtimes.wf(),
        ensures
            p.wf(),
            p.cached == cached,
            p.mtimes == mtimes,
            p.digests@ == Map::<Seq<char>, String>::empty(),
            p.changed@.len() == 0,
    {
        ChangePlan { cached, mtimes, digests: TextMap::new(), changed: Vec::new() }
    }

    /// Looks at one file of a first build, where nothing is known of it: it counts as changed, and
    /// its digest is left for when it is read.
    pub fn visit_first(&mut self, rel: &str, mtime: Mtime)
        requires
            old(self).wf(),
        ensures
            final(self).wf(),
            final(self).cached == old(self).cached,
            final(self).digests == old(self).digests,
            final(self).mtimes@ == old(self).mtimes@.insert(rel@, mtime),
            final(self).changed@.len() == old(self).changed@.len() + 1,
            final(self).changed@.drop_last() == old(self).changed@,
            final(self).changed@.last().0@ == rel@,
            final(self).changed@.last().1@ == Seq::<char>::empty(),
    {
        self.changed.push((rel.to_owned(), String::new()));
        self.mtimes.insert(rel.to_owned(), mtime);
    }

    /// Looks at one file whose modification time is `mtime`. Where it is as it was, its digest is
    /// taken over; where not, the answer is `true`, and its digest has to be found and handed to
    /// `hashed`.
    pub fn visit(&mut self, rel: &str, mtime: Mtime) -> (stale: bool)
        requires
            old(self).wf(),
        ensures
            final(self).wf(),
            stale == !is_fresh(old(self).mtimes@, old(self).cached@, rel@, mtime),
            final(self).cached == old(self).cached,
            final(self).changed == old(self).changed,
            final(self).mtimes@ == old(self).mtimes@.insert(rel@, mtime),
            final(self).digests@ == if stale {
                old(self).digests@
            } else {
                old(self).digests@.insert(rel@, old(self).cached@[rel@])
            },
    {
        let same = match self.mtimes.get(rel) {
            Some(t) => t.0 == mtime.0 && t.1 == mtime.1,
            None => false,
        };
        let stale = match self.cached.get(rel) {
            Some(d) => {
                if same {
                    self.digests.insert(rel.to_owned(), d.clone());
                }
                !same
            },
            None => true,
        };
        self.mtimes.insert(rel.to_owned(), mtime);
        stale
    }

    /// Takes the digest of a file that may have changed. It counts as changed unless the digest is
    /// the one that was known of it: a file that was only touched is as it was.
    pub fn hashed(&mut self, rel: &str, digest: String)
        requires
            old(self).wf(),
        ensures
            final(self).wf(),
            final(self).cached == old(self).cached,
            final(self).mtimes == old(self).mtimes,
            final(self).digests@ == old(self).digests@.insert(rel@, digest),
            if is_known(old(self).cached@, rel@, digest@) {
                final(self).changed@ == old(self).changed@
            } else {
                &&& final(self).changed@.len() == old(self).changed@.len() + 1
                &&& final(self).changed@.drop_last() == old(self).changed@
                &&& final(self).changed@.last().0@ == rel@
                &&& final(self).changed@.last().1@ == digest@
            },
    {
        let same = match self.cached.get(rel) {
            Some(d) => str_eq(d.as_str(), digest.as_str()),
            None => false,
        };
        self.digests.insert(rel.to_owned(), digest.clone());
        if !same {
            self.changed.push((rel.to_owned(), digest));
        }
    }

    /// Takes the digest of a file that was read.
    pub fn read(&mut self, rel: String, digest: String)
        requires
            old(self).wf(),
        ensures
            final(self).wf(),
            final(self).cached == old(self).cached,
            final(self).mtimes == old(self).mtimes,
            final(self).changed == old(self).changed,
            final(self).digests@ == old(self).digests@.insert(rel@, digest),
    {
        self.digests.insert(rel, digest);
    }
}

/// What a build does.
#[derive(Clone, Copy, Debug, PartialEq, Eq, Structural)]
pub enum BuildKind {
    /// Nothing: the index is up to date.
    UpToDate,
    /// Reads the changed files and replaces what the index holds of them.
    Incremental,
    /// Reads all files into a new index.
    Full,
}

/// Nothing is built where no file changed and an index with its digests is there. All files are
/// read where there is no index, where no digests are known, or where at least three in ten files
/// changed; else only the changed ones.
pub open spec fn kind_of_build(db_exists: bool, known: bool, changed: int, files: int) -> BuildKind {
    if db_exists && known && changed == 0 {
        BuildKind::UpToDate
    } else if !db_exists || !known || 10 * changed >= 3 * files {
        BuildKind::Full
    } else {
        BuildKind::Incremental
    }
}

/// Decides what a build does. `known` tells whether digests of the build before are known.
pub fn build_kind(db_exists: bool, known: bool, changed: usize, files: usize) -> (k: BuildKind)
    ensures
        k == kind_of_build(db_exists, known, changed as int, files as int),
{
    if db_exists && known && changed == 0 {
        BuildKind::UpToDate
    } else if !db_exists || !known || 10 * (changed as u128) >= 3 * (files as u128) {
        BuildKind::Full
    } else {
        BuildKind::Incremental
    }
}

/// The modification times that are known after files with the given times were looked at.
pub open spec fn times_after(
    mtimes: Map<Seq<char>, Mtime>,
    visits: Seq<(Seq<char>, Mtime)>,
) -> Map<Seq<char>, Mtime>
    decreases visits.len(),
{
    if visits.len() == 0 {
        mtimes
    } else {
        times_after(mtimes, visits.drop_last()).insert(visits.last().0, visits.last().1)
    }
}

/// How many of the files with the given times, looked at in order, are found stale.
pub open spec fn stale_count(
    mtimes: Map<Seq<char>, Mtime>,
    cached: Map<Seq<char>, String>,
    visits: Seq<(Seq<char>, Mtime)>,
) -> nat
    decreases visits.len(),
{
    if visits.len() == 0 {
        0
    } else {
        stale_count(mtimes, cached, visits.drop_last()) + if is_fresh(
            times_after(mtimes, visits.drop_last()),
            cached,
            visits.last().0,
            visits.last().1,
        ) {
            0nat
        } else {
            1nat
        }
    }
}

/// A build that follows another, with the digests that the other left and no file touched in
/// between, finds no file stale and has nothing to do.
pub proof fn law_second_build_idle(
    mtimes: Map<Seq<char>, Mtime>,
    cached: Map<Seq<char>, String>,
    visits: Seq<(Seq<char>, Mtime)>,
)
    requires
        forall|i: int, j: int|
            0 <= i < j < visits.len() ==> (#[trigger] visits[i]).0 != (#[trigger] visits[j]).0,
        forall|i: int| 0 <= i < visits.len() ==> cached.contains_key((#[trigger] visits[i]).0),
    ensures
        ({
            let stale = stale_count(times_after(mtimes, visits), cached, visits);
            &&& stale == 0
            &&& kind_of_build(true, true, stale as int, visits.len() as int) == BuildKind::UpToDate
        }),
{
    let known = times_after(mtimes, visits);
    assert forall|i: int| 0 <= i < visits.len() implies known.contains_key((#[trigger] visits[i]).0)
        && known[visits[i].0] == visits[i].1 by {
        lemma_times_after(mtimes, visits, i);
    }
    assert(visits.take(visits.len() as int) =~= visits);
    lemma_none_stale(known, cached, visits, visits.len() as int);
}

/// How many of the files, each with the digest of its content, count as changed once all of them
/// were found stale and hashed.
pub open spec fn changed_count(
    cached: Map<Seq<char>, String>,
    hashes: Seq<(Seq<char>, Seq<char>)>,
) -> nat {
    hashes.filter(|h: (Seq<char>, Seq<char>)| !is_known(cached, h.0, h.1)).len()
}

/// Files that were touched but hold what they held leave a build nothing to do, whatever their
/// modification times are.
pub proof fn law_touched_files_idle(
    cached: Map<Seq<char>, String>,
    hashes: Seq<(Seq<char>, Seq<char>)>,
    files: int,
)
    requires
        forall|i: int|
            0 <= i < hashes.len() ==> is_known(
                cached,
                (#[trigger] hashes[i]).0,
                hashes[i].1,
            ),
    ensures
        changed_count(cached, hashes) == 0,
        kind_of_build(true, true, changed_count(cached, hashes) as int, files)
            == BuildKind::UpToDate,
{
    let stale = |h: (Seq<char>, Seq<char>)| !is_known(cached, h.0, h.1);
    lemma_filter_none(hashes, stale);
}

/// The time of a file that was looked at is known afterwards.
proof fn lemma_times_after(
    mtimes: Map<Seq<char>, Mtime>,
    visits: Seq<(Seq<char>, Mtime)>,
    i: int,
)
    requires
        forall|i: int, j: int|
            0 <= i < j < visits.len() ==> (#[trigger] visits[i]).0 != (#[trigger] visits[j]).0,
        0 <= i < visits.len(),
    ensures
        times_after(mtimes, visits).contains_key(visits[i].0),
        times_after(mtimes, visits)[visits[i].0] == visits[i].1,
    decreases visits.len(),
{
    if i < visits.len() - 1 {
        assert(visits[i].0 != visits[visits.len() - 1].0);
        let before = visits.drop_last();
        assert forall|a: int, b: int| 0 <= a < b < before.len() implies (#[trigger] before[a]).0 != (
        #[trigger] before[b]).0 by {
            assert(visits[a].0 != visits[b].0);
        }
        lemma_times_after(mtimes, before, i);
    }
}

/// Files whose times are known are not found stale.
proof fn lemma_none_stale(
    known: Map<Seq<char>, Mtime>,
    cached: Map<Seq<char>, String>,
    visits: Seq<(Seq<char>, Mtime)>,
    n: int,
)
    requires
        0 <= n <= visits.len(),
        forall|i: int|
            0 <= i < visits.len() ==> known.contains_key((#[trigger] visits[i]).0)
                && known[visits[i].0] == visits[i].1,
        forall|i: int| 0 <= i < visits.len() ==> cached.contains_key((#[trigger] visits[i]).0),
    ensures
        times_after(known, visits.take(n)) == known,
        stale_count(known, cached, visits.take(n)) == 0,
    decreases n,
{
    if n > 0 {
        lemma_none_stale(known, cached, visits, n - 1);
        assert(visits.take(n).drop_last() =~= visits.take(n - 1));
        assert(known.insert(visits[n - 1].0, visits[n - 1].1) =~= known);
    }
}

/// A file is fresh exactly where it was seen with the same time and its digest is known: seen with
/// another time, or never seen, it is not.
pub proof fn law_fresh_by_time(
    mtimes: Map<Seq<char>, Mtime>,
    cached: Map<Seq<char>, String>,
    rel: Seq<char>,
    seen: Mtime,
    now: Mtime,
)
    ensures
        is_fresh(mtimes.insert(rel, seen), cached, rel, seen) <==> cached.contains_key(rel),
        seen != now ==> !is_fresh(mtimes.insert(rel, seen), cached, rel, now),
        !is_fresh(mtimes.remove(rel), cached, rel, now),
        !is_fresh(mtimes, cached.remove(rel), rel, now),
{
}

/// The content of a file is known exactly where its digest is the one that was stored for it.
pub proof fn law_known_by_digest(
    cached: Map<Seq<char>, String>,
    rel: Seq<char>,
    stored: String,
    digest: Seq<char>,
)
    ensures
        is_known(cached.insert(rel, stored), rel, digest) <==> stored@ == digest,
        !is_known(cached.remove(rel), rel, digest),
{
}

/// What a build does. Without an index, or where nothing is known of the last build, it reads all
/// files; where nothing changed it does nothing; otherwise it reads all where three of ten files or
/// more changed, and else the changed ones alone.
pub proof fn law_kind_of_build(changed: int, files: int)
    requires
        0 <= changed,
        0 <= files,
    ensures
        kind_of_build(false, true, changed, files) == BuildKind::Full,
        kind_of_build(true, false, changed, files) == BuildKind::Full,
        kind_of_build(false, false, changed, files) == BuildKind::Full,
        changed == 0 <==> kind_of_build(true, true, changed, files) == BuildKind::UpToDate,
        changed > 0 && changed * 100 >= files * 30 <==> kind_of_build(true, true, changed, files)
            == BuildKind::Full,
        changed > 0 && changed * 100 < files * 30 <==> kind_of_build(true, true, changed, files)
            == BuildKind::Incremental,
{
}

/// How visits and digests add up: the last time of a file counts, a visit that is not fresh counts as
/// stale, and a digest that is not known as a change.
pub proof fn law_visits_add_up(
    mtimes: Map<Seq<char>, Mtime>,
    cached: Map<Seq<char>, String>,
    visits: Seq<(Seq<char>, Mtime)>,
    v: (Seq<char>, Mtime),
    hashes: Seq<(Seq<char>, Seq<char>)>,
    h: (Seq<char>, Seq<char>),
)
    ensures
        times_after(mtimes, Seq::empty()) == mtimes,
        times_after(mtimes, visits.push(v)) == times_after(mtimes, visits).insert(v.0, v.1),
        stale_count(mtimes, cached, Seq::empty()) == 0,
        is_fresh(times_after(mtimes, visits), cached, v.0, v.1) ==> stale_count(
            mtimes,
            cached,
            visits.push(v),
        ) == stale_count(mtimes, cached, visits),
        !is_fresh(times_after(mtimes, visits), cached, v.0, v.1) ==> stale_count(
            mtimes,
            cached,
            visits.push(v),
        ) == stale_count(mtimes, cached, visits) + 1,
        changed_count(cached, Seq::empty()) == 0,
        is_known(cached, h.0, h.1) ==> changed_count(cached, hashes.push(h)) == changed_count(
            cached,
            hashes,
        ),
        !is_known(cached, h.0, h.1) ==> changed_count(cached, hashes.push(h)) == changed_count(
            cached,
            hashes,
        ) + 1,
{
    reveal(Seq::filter);
    assert(visits.push(v).drop_last() =~= visits);
    assert(hashes.push(h).drop_last() =~= hashes);
}

} // verus!
