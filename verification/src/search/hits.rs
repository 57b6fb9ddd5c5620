//! What a row of the index says of a phrase in a file, and what it weighs.

use vstd::prelude::*;
use vstd::utf8::*;

use crate::index::occurrences::{
    counted, in_file, lemma_filter_push, summary, sums_up, Occ, OccEntry, OccKey,
};
use crate::index::rows::{are_rows, df_of, id_of, overflow_of, row_of, scored, Row};
use crate::index::schema::{
    count_in, law_flags_round_trip, law_line_round_trip, line_in, packed, packed_line, score_in,
    unpack_count, unpack_is_def, unpack_line_nos, unpack_zone_int, zone_in,
};
use crate::lcep::{refined, EntropyBand};
use crate::text::{append, joined_text};

verus! {

broadcast use vstd::seq::group_seq_axioms;

// ---------------------------------------------------------------------------------------------
// Rows
// ---------------------------------------------------------------------------------------------
/// The first byte of a blob, or 0 where it has none.
pub open spec fn first_byte(blob: Seq<u8>) -> u8 {
    if blob.len() > 0 {
        blob[0]
    } else {
        0
    }
}

/// The byte of flags in a blob, or 0 where it has none.
pub fn flags_in(blob: &[u8]) -> (f: u8)
    ensures
        f == first_byte(blob@),
{
    if blob.len() > 0 {
        blob[0]
    } else {
        0
    }
}

/// A phrase in a file, as a row of the index tells it.
#[derive(Clone, Copy, Debug, PartialEq, Eq, Structural)]
pub struct Hit {
    /// How often the phrase occurs in the file.
    pub count: u32,
    /// Its definition score.
    pub is_def: i32,
    /// Its zone.
    pub zone: i32,
    /// The first line that it occurs in.
    pub first_line: u32,
}

/// What a row tells: the flags give the score, the zone and a count up to 30; a count over 30 is
/// stored apart.
pub open spec fn hit_of(flags: int, line: Seq<u8>, overflow: u32) -> Hit {
    Hit {
        count: if count_in(flags) >= 31 {
            overflow
        } else {
            count_in(flags) as u32
        },
        is_def: score_in(flags) as i32,
        zone: zone_in(flags) as i32,
        first_line: line_in(line) as u32,
    }
}

/// Reads a row of the index. `overflow` is the count that is stored apart.
pub fn read_hit(flags: &[u8], line: &[u8], overflow: u32) -> (h: Hit)
    ensures
        h == hit_of(first_byte(flags@) as int, line@, overflow),
{
    let f: u8 = flags_in(flags);
    let base: u32 = unpack_count(f);
    Hit {
        count: if base >= 31 {
            overflow
        } else {
            base
        },
        is_def: unpack_is_def(f),
        zone: unpack_zone_int(f),
        first_line: unpack_line_nos(line),
    }
}

/// What was stored of a phrase in a file is read back: its score, its zone, its count, however
/// large, and its first line, up to the 16 bits that are kept of it. Where no count is stored apart,
/// any stands in for it.
pub proof fn law_row_reads_back(score: i32, zone: i32, count: u32, line: int, other: u32)
    requires
        -1 <= score <= 2,
        0 <= zone <= 1,
        0 <= line,
    ensures
        ({
            let overflow = match overflow_of(count) {
                Some(n) => n,
                None => other,
            };
            hit_of(packed(score as int, zone as int, count as int), packed_line(line), overflow)
                == Hit { count, is_def: score, zone, first_line: (line % 65536) as u32 }
        }),
{
    law_flags_round_trip(score as int, zone as int, count as int);
    law_line_round_trip(line);
}

/// What was indexed is found: a phrase that occurs in a file has a row in the index, and what is
/// stored of that row tells how often the phrase occurs in the file, its zone there, the definition
/// score of the row, and its first line, up to the 16 bits that are kept of it. Where no count is
/// stored apart, any stands in for it.
pub proof fn law_index_reads_back(
    h: Seq<Occ>,
    t: Map<OccKey, OccEntry>,
    ids: Map<u64, i64>,
    rows: Seq<Row>,
    kept: Map<i64, u32>,
    bands: Map<u64, EntropyBand>,
    k: OccKey,
    other: u32,
)
    requires
        sums_up(t, h),
        are_rows(rows, t, ids),
        in_file(h, k).len() > 0,
    ensures
        exists|i: int|
            {
                let r = #[trigger] scored(rows, kept, bands)[i];
                let found = summary(in_file(h, k));
                &&& 0 <= i < rows.len()
                &&& r.key == (id_of(ids, k.0), k.1)
                &&& hit_of(
                    packed(r.score as int, r.entry.zone as int, r.entry.count as int),
                    packed_line(r.entry.first_line as int),
                    match overflow_of(r.entry.count) {
                        Some(n) => n,
                        None => other,
                    },
                ) == Hit {
                    count: counted(in_file(h, k).len()),
                    is_def: r.score,
                    zone: found.zone,
                    first_line: (found.first_line as int % 65536) as u32,
                }
            },
{
    assert(t.contains_key(k));
    let x = row_of(t, ids, k);
    assert(rows.contains(x));
    let i = choose|i: int| 0 <= i < rows.len() && rows[i] == x;
    let r = scored(rows, kept, bands)[i];
    let df = df_of(rows, kept, x.0.0);
    assert(x.2 == summary(in_file(h, k)));
    assert(-1 <= refined(x.2.is_def as int, x.2.zone as int, df as int, bands.get(x.1)) <= 2);
    law_row_reads_back(r.score, r.entry.zone, r.entry.count, r.entry.first_line as int, other);
    assert(scored(rows, kept, bands)[i].key == (id_of(ids, k.0), k.1));
}

/// The line number in the first four bytes of a blob, the low byte first, as a signed number.
pub open spec fn wide_line_in(blob: Seq<u8>) -> Option<int> {
    if blob.len() < 4 {
        None
    } else {
        let n = blob[0] as int + 0x100 * blob[1] as int + 0x1_0000 * blob[2] as int + 0x100_0000
            * blob[3] as int;
        Some(
            if n < 0x8000_0000 {
                n
            } else {
                n - 0x1_0000_0000
            },
        )
    }
}

/// The line number in a blob of four bytes, the low byte first. A shorter blob has none.
pub fn unpack_first_line(blob: &[u8]) -> (r: Option<i32>)
    ensures
        match r {
            Some(n) => wide_line_in(blob@) == Some(n as int),
            None => wide_line_in(blob@) is None,
        },
{
    if blob.len() < 4 {
        return None;
    }
    let n: i64 = blob[0] as i64 + 0x100 * (blob[1] as i64) + 0x1_0000 * (blob[2] as i64)
        + 0x100_0000 * (blob[3] as i64);
    if n < 0x8000_0000 {
        Some(n as i32)
    } else {
        Some((n - 0x1_0000_0000) as i32)
    }
}

// ---------------------------------------------------------------------------------------------
// Weights
// ---------------------------------------------------------------------------------------------
/// The weight of a zone, in quarters: code counts double, prose a quarter.
pub open spec fn zone_quarters(zone: int) -> int {
    if zone == 0 {
        8
    } else {
        1
    }
}

/// The weight of a definition score.
pub open spec fn def_weight(is_def: int) -> int {
    if is_def == 2 {
        8
    } else if is_def == 1 {
        5
    } else if is_def == -1 {
        2
    } else {
        1
    }
}

/// The weight of a phrase in a file by its zone and its definition score, in quarters.
pub fn hit_quarters(zone: i32, is_def: i32) -> (w: u32)
    ensures
        w == zone_quarters(zone as int) * def_weight(is_def as int),
{
    let z: u32 = if zone == 0 {
        8
    } else {
        1
    };
    match is_def {
        2 => z * 8,
        1 => z * 5,
        -1 => z * 2,
        _ => z,
    }
}

/// A definition in code outweighs everything else: a stronger definition weighs more in the same
/// zone, and code weighs more than prose with the same score.
pub proof fn law_weights_ordered(zone: int, is_def: int)
    requires
        0 <= is_def < 2,
    ensures
        zone_quarters(zone) * def_weight(is_def) < zone_quarters(zone) * def_weight(is_def + 1),
        zone_quarters(1) * def_weight(is_def) < zone_quarters(0) * def_weight(is_def),
{
    assert(zone_quarters(zone) == 8 || zone_quarters(zone) == 1);
}

/// A file has definitions, and unique ones among them.
pub open spec fn has_unique(unique: int, total: int) -> bool {
    total > 0 && unique > 0
}

/// Whether the share of unique definitions of a file weighs: where it has definitions, and unique
/// ones among them.
pub fn weighs_definitions(unique: i64, total: i64) -> (r: bool)
    ensures
        r == has_unique(unique as int, total as int),
{
    total > 0 && unique > 0
}

// ---------------------------------------------------------------------------------------------
// Patterns
// ---------------------------------------------------------------------------------------------
/// The pattern of the phrases that start with a term.
pub fn prefix_pattern(term: &str) -> (p: String)
    ensures
        p@ == term@ + "%"@,
{
    joined_text(term, "%")
}

/// The pattern of the phrases that hold a term.
pub fn substring_pattern(term: &str) -> (p: String)
    ensures
        p@ == "%"@ + term@ + "%"@,
{
    let mut p = joined_text("%", term);
    append(&mut p, "%");
    p
}

/// A term is long enough to be looked for inside phrases.
pub open spec fn is_long(term: Seq<char>) -> bool {
    encode_utf8(term).len() >= 4
}

/// Whether a term is looked for inside phrases: where it has at least 4 bytes.
pub fn searches_inside(term: &str) -> (r: bool)
    ensures
        r == is_long(term@),
{
    term.as_bytes().len() >= 4
}

/// How many of the files that were found are looked at closely.
pub open spec fn looked_at(top_n: int, found: int) -> int {
    if top_n * 5 < found {
        top_n * 5
    } else {
        found
    }
}

/// How many of the candidates make up the clusters.
pub open spec fn clustered(candidates: int) -> int {
    if candidates < 20 {
        candidates
    } else {
        20
    }
}

/// How many files are looked at closely: five times as many as are wanted, or all.
pub fn candidate_count(top_n: usize, found: usize) -> (n: usize)
    requires
        top_n * 5 <= usize::MAX,
    ensures
        n == looked_at(top_n as int, found as int),
{
    if top_n * 5 < found {
        top_n * 5
    } else {
        found
    }
}

/// How many of the candidates make up the clusters: the first 20, or all.
pub fn cluster_count(candidates: usize) -> (n: usize)
    ensures
        n == clustered(candidates as int),
{
    if candidates < 20 {
        candidates
    } else {
        20
    }
}

// ---------------------------------------------------------------------------------------------
// Lines
// ---------------------------------------------------------------------------------------------
/// The first lines of the terms in the files: the file, the place of the term among the terms of
/// the query, and the line.
pub struct LineSets {
    pub hits: Vec<(i64, usize, i32)>,
}

/// The records of the term `term` in the file `file`.
pub open spec fn records_of(file: i64, term: usize) -> spec_fn((i64, usize, i32)) -> bool {
    |h: (i64, usize, i32)| h.0 == file && h.1 == term
}

/// The lines of the term `term` in the file `file`.
pub open spec fn lines_for(hits: Seq<(i64, usize, i32)>, file: i64, term: usize) -> Seq<i32> {
    hits.filter(records_of(file, term)).map_values(|h: (i64, usize, i32)| h.2)
}

/// The lines in the file `file` of each of the first `n` terms that has some.
pub open spec fn line_sets_of(hits: Seq<(i64, usize, i32)>, file: i64, n: nat) -> Seq<Seq<i32>> {
    Seq::new(n, |t: int| lines_for(hits, file, t as usize)).filter(|s: Seq<i32>| s.len() > 0)
}

/// The hits once the first line of a term in a file is recorded.
pub open spec fn recorded(
    hits: Seq<(i64, usize, i32)>,
    file: i64,
    term: usize,
    line: i32,
) -> Seq<(i64, usize, i32)> {
    if line > 0 {
        hits.push((file, term, line))
    } else {
        hits
    }
}

/// The lines of a term in a file with one more record.
proof fn lemma_lines_push(
    hits: Seq<(i64, usize, i32)>,
    h: (i64, usize, i32),
    file: i64,
    term: usize,
)
    ensures
        lines_for(hits.push(h), file, term) == if h.0 == file && h.1 == term {
            lines_for(hits, file, term).push(h.2)
        } else {
            lines_for(hits, file, term)
        },
{
    lemma_filter_push(hits, h, records_of(file, term));
    if h.0 == file && h.1 == term {
        assert(lines_for(hits.push(h), file, term) =~= lines_for(hits, file, term).push(h.2));
    } else {
        assert(lines_for(hits.push(h), file, term) =~= lines_for(hits, file, term));
    }
}

impl LineSets {
    /// No lines.
    pub fn new() -> (l: LineSets)
        ensures
            l.hits@.len() == 0,
    {
        LineSets { hits: Vec::new() }
    }

    /// Records the first line of a term in a file. The line 0 is not recorded.
    pub fn record(&mut self, file: i64, term: usize, line: i32)
        ensures
            final(self).hits@ == recorded(old(self).hits@, file, term, line),
    {
        if line > 0 {
            self.hits.push((file, term, line));
        }
    }

    /// The lines in a file of each of the `n` terms that has some.
    pub fn lines_in(&self, file: i64, n: usize) -> (r: Vec<Vec<i32>>)
        ensures
            r@.map_values(|v: Vec<i32>| v@) == line_sets_of(self.hits@, file, n as nat),
    {
        let mut by_term: Vec<Vec<i32>> = Vec::new();
        let mut t: usize = 0;
        while t < n
            invariant
                t <= n,
                by_term@.len() == t,
                forall|k: int| 0 <= k < t ==> (#[trigger] by_term@[k])@.len() == 0,
            decreases n - t,
        {
            by_term.push(Vec::new());
            t += 1;
        }
        let ghost hits = self.hits@;
        let mut i: usize = 0;
        proof {
            reveal(Seq::filter);
        }
        while i < self.hits.len()
            invariant
                i <= self.hits@.len(),
                hits == self.hits@,
                by_term@.len() == n,
                forall|k: int|
                    0 <= k < n ==> (#[trigger] by_term@[k])@ == lines_for(
                        hits.take(i as int),
                        file,
                        k as usize,
                    ),
            decreases self.hits@.len() - i,
        {
            let (f, term, line) = self.hits[i];
            let ghost before = by_term@;
            let ghost h = hits[i as int];
            proof {
                assert(hits.take(i + 1) =~= hits.take(i as int).push(h));
                assert forall|k: int| 0 <= k < n implies #[trigger] lines_for(
                    hits.take(i + 1),
                    file,
                    k as usize,
                ) == if f == file && term == k {
                    lines_for(hits.take(i as int), file, k as usize).push(line)
                } else {
                    lines_for(hits.take(i as int), file, k as usize)
                } by {
                    lemma_lines_push(hits.take(i as int), h, file, k as usize);
                }
            }
            if f == file && term < n {
                by_term[term].push(line);
            }
            proof {
                assert forall|k: int| 0 <= k < n implies (#[trigger] by_term@[k])@ == lines_for(
                    hits.take(i + 1),
                    file,
                    k as usize,
                ) by {
                    assert(before[k]@ == lines_for(hits.take(i as int), file, k as usize));
                }
            }
            i += 1;
        }
        assert(hits.take(i as int) =~= hits);
        let ghost all = Seq::new(n as nat, |t: int| lines_for(hits, file, t as usize));
        let ghost some = |s: Seq<i32>| s.len() > 0;
        let mut r: Vec<Vec<i32>> = Vec::new();
        let mut j: usize = 0;
        assert(r@.map_values(|v: Vec<i32>| v@) =~= Seq::<Seq<i32>>::empty());
        proof {
            reveal(Seq::filter);
        }
        while j < n
            invariant
                j <= n,
                by_term@.len() == n,
                all.len() == n,
                forall|k: int| 0 <= k < n ==> (#[trigger] by_term@[k])@ == all[k],
                some == (|s: Seq<i32>| s.len() > 0),
                r@.map_values(|v: Vec<i32>| v@) == all.take(j as int).filter(some),
            decreases n - j,
        {
            let ghost before = r@;
            proof {
                assert(all.take(j + 1) =~= all.take(j as int).push(all[j as int]));
                lemma_filter_push(all.take(j as int), all[j as int], some);
            }
            if by_term[j].len() > 0 {
                let v: Vec<i32> = by_term[j].clone();
                assert(v@ =~= by_term@[j as int]@);
                r.push(v);
                assert(r@.map_values(|v: Vec<i32>| v@) =~= before.map_values(
                    |v: Vec<i32>| v@,
                ).push(all[j as int]));
            }
            j += 1;
        }
        assert(all.take(j as int) =~= all);
        r
    }
}

/// How much a hit weighs: in code eight times as much as in prose, and by its definition score eight,
/// five, twice or once as much as a plain use.
pub proof fn law_weights_by_use(zone: int, is_def: int)
    ensures
        zone_quarters(1) * def_weight(0) == 1,
        zone_quarters(0) == 8 * zone_quarters(1),
        zone != 0 ==> zone_quarters(zone) == zone_quarters(1),
        def_weight(2) == 8 * def_weight(0),
        def_weight(1) == 5 * def_weight(0),
        def_weight(-1) == 2 * def_weight(0),
        is_def < -1 || is_def > 2 ==> def_weight(is_def) == def_weight(0),
{
}

/// A line number of four bytes is the signed number that they write, the least significant byte
/// first; fewer bytes write none.
pub proof fn law_wide_line(blob: Seq<u8>)
    ensures
        blob.len() < 4 <==> wide_line_in(blob) is None,
        blob.len() >= 4 ==> {
            let n = wide_line_in(blob)->0;
            &&& -0x8000_0000 <= n < 0x8000_0000
            &&& n == blob[0] + 0x100 * blob[1] + 0x1_0000 * blob[2] + 0x100_0000 * blob[3] || n
                + 0x1_0000_0000 == blob[0] + 0x100 * blob[1] + 0x1_0000 * blob[2] + 0x100_0000
                * blob[3]
        },
{
}

/// The lines of a term in a file are those that were recorded for both, in the order in which they
/// were.
pub proof fn law_lines_recorded(
    hits: Seq<(i64, usize, i32)>,
    h: (i64, usize, i32),
    file: i64,
    term: usize,
)
    ensures
        lines_for(Seq::empty(), file, term).len() == 0,
        h.0 == file && h.1 == term ==> lines_for(hits.push(h), file, term) == lines_for(
            hits,
            file,
            term,
        ).push(h.2),
        h.0 != file || h.1 != term ==> lines_for(hits.push(h), file, term) == lines_for(
            hits,
            file,
            term,
        ),
{
    reveal(Seq::filter);
    lemma_lines_push(hits, h, file, term);
}

/// The sets of lines of a file are those of its terms, in their order, without the terms that it does
/// not hold.
pub proof fn law_line_sets(hits: Seq<(i64, usize, i32)>, file: i64, n: nat)
    ensures
        line_sets_of(hits, file, 0).len() == 0,
        lines_for(hits, file, n as usize).len() > 0 ==> line_sets_of(hits, file, n + 1)
            == line_sets_of(hits, file, n).push(lines_for(hits, file, n as usize)),
        lines_for(hits, file, n as usize).len() == 0 ==> line_sets_of(hits, file, n + 1)
            == line_sets_of(hits, file, n),
{
    reveal(Seq::filter);
    let all = Seq::new(n + 1, |t: int| lines_for(hits, file, t as usize));
    assert(all.drop_last() =~= Seq::new(n, |t: int| lines_for(hits, file, t as usize)));
    assert(all.last() == lines_for(hits, file, n as usize));
}

/// What a hit says is what its stored bytes say: the count where it fits, and the number beside it
/// where it does not.
pub proof fn law_hit_reads_bytes(flags: int, line: Seq<u8>, overflow: u32)
    requires
        0 <= flags < 256,
    ensures
        hit_of(flags, line, overflow).is_def == score_in(flags),
        hit_of(flags, line, overflow).zone == zone_in(flags),
        count_in(flags) < 31 ==> hit_of(flags, line, overflow).count == count_in(flags),
        count_in(flags) >= 31 ==> hit_of(flags, line, overflow).count == overflow,
        hit_of(flags, line, overflow).first_line == line_in(line),
{
}

/// The flags of a row are its first byte; where there is none they are zero.
pub proof fn law_flags_are_first_byte(f: u8, rest: Seq<u8>)
    ensures
        first_byte(seq![f] + rest) == f,
        first_byte(Seq::empty()) == 0,
{
}

/// The share of unique definitions weighs exactly where both numbers are positive.
pub proof fn law_unique_weighs(unique: int, total: int)
    ensures
        has_unique(unique, total) <==> unique >= 1 && total >= 1,
{
}

/// Terms of three bytes or fewer are not looked for inside phrases, and all longer ones are.
pub proof fn law_long_terms(term: Seq<char>)
    ensures
        !is_long(term) <==> encode_utf8(term).len() <= 3,
{
}

/// Never more files are looked at than were found, nor more than five for each that is wanted, and as
/// many as that allows; of those at most 20 make up clusters.
pub proof fn law_files_looked_at(top_n: int, found: int)
    requires
        0 <= top_n,
        0 <= found,
    ensures
        looked_at(top_n, found) <= found,
        looked_at(top_n, found) <= 5 * top_n,
        looked_at(top_n, found) == found || looked_at(top_n, found) == 5 * top_n,
        clustered(found) <= found,
        clustered(found) <= 20,
        clustered(found) == found || clustered(found) == 20,
{
}

/// Recording a line adds it for its term and file, and for no other; a line that is not positive adds
/// nothing.
pub proof fn law_line_recorded(
    hits: Seq<(i64, usize, i32)>,
    file: i64,
    term: usize,
    line: i32,
    g: i64,
    u: usize,
)
    ensures
        line >= 1 ==> lines_for(recorded(hits, file, term, line), file, term) == lines_for(
            hits,
            file,
            term,
        ).push(line),
        line <= 0 ==> recorded(hits, file, term, line) == hits,
        g != file || u != term ==> lines_for(recorded(hits, file, term, line), g, u) == lines_for(
            hits,
            g,
            u,
        ),
{
    law_lines_recorded(hits, (file, term, line), file, term);
    law_lines_recorded(hits, (file, term, line), g, u);
}

} // verus!
