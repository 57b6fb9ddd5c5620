//! What one file contributes to the index.

use std::collections::HashSet;
use vstd::multiset::Multiset;
use vstd::prelude::*;
use vstd::utf8::*;

use super::contexts::ContextTable;
use super::digest::{content_digest, hex, sha256_of};
use super::occurrences::{counted, is_hash, of_phrase, phrase_hash, Occ, PhraseTables};
use crate::text::{
    chars_of, lines, lines_of, lowercase, starts_with, string_of, to_lowercase, trim, trimmed, views,
    words, words_of,
};
use crate::zone::{
    all_identifiers, ascii_text, defines, identifiers, is_definition, is_identifier,
    lemma_ascii_boundary, lemma_identifiers_from, line_zone, scan_identifiers, zone_of,
};

verus! {

broadcast use vstd::seq::group_seq_axioms;

// ---------------------------------------------------------------------------------------------
// Where identifiers stand
// ---------------------------------------------------------------------------------------------
/// The place of one identifier: its line and the bytes of the line that it takes.
pub struct Site {
    /// The number of the line, counted from 0.
    pub line_no: int,
    /// The text of the line.
    pub line: Seq<char>,
    /// The first byte of the identifier.
    pub start: int,
    /// The first byte behind it.
    pub end: int,
}

/// The places of the identifiers of one line.
pub open spec fn line_sites(line: Seq<char>, line_no: int) -> Seq<Site> {
    identifiers(encode_utf8(line)).map_values(
        |p: (int, int)| Site { line_no, line, start: p.0, end: p.1 },
    )
}

/// The places of the identifiers of some lines, in order.
pub open spec fn sites(ls: Seq<Seq<char>>) -> Seq<Site>
    decreases ls.len(),
{
    if ls.len() == 0 {
        Seq::empty()
    } else {
        sites(ls.drop_last()) + line_sites(ls.last(), ls.len() - 1)
    }
}

/// The longest left context that is kept, in characters.
pub const CONTEXT_CHARS: usize = 30;

/// The word that ends before the byte `start` of a line, cut to its first 30 characters. There is
/// none where only white space comes before.
pub open spec fn cut_word(line: Seq<char>, start: int) -> Option<Seq<char>> {
    let w = words(decode_utf8(encode_utf8(line).subrange(0, start)));
    if w.len() == 0 {
        None
    } else if w.last().len() <= CONTEXT_CHARS {
        Some(w.last())
    } else {
        Some(w.last().take(CONTEXT_CHARS as int))
    }
}

/// The word that ends before the byte `start` of a line, cut, in lowercase.
pub open spec fn left_word(line: Seq<char>, start: int) -> Option<Seq<char>> {
    match cut_word(line, start) {
        Some(w) => Some(lowercase(w)),
        None => None,
    }
}

/// The occurrence of the identifier at `s` in the file `file`, if its hash is `key`.
pub open spec fn occ_at(s: Site, file: i64, key: u64) -> Occ {
    let b = encode_utf8(s.line);
    Occ {
        key,
        file,
        phrase: ascii_text(b.subrange(s.start, s.end)),
        line: s.line_no,
        zone: zone_of(s.line) as int,
        is_def: zone_of(s.line) == 0 && defines(b, s.start, s.end),
        context: left_word(s.line, s.start),
    }
}

/// The occurrences of the identifiers at `s` in the file `file`, if their hashes are `keys`.
pub open spec fn occs_at(s: Seq<Site>, file: i64, keys: Seq<u64>) -> Seq<Occ> {
    Seq::new(s.len(), |i: int| occ_at(s[i], file, keys[i]))
}

/// Each of the occurrences has the hash of its phrase.
pub open spec fn hashed(h: Seq<Occ>) -> bool {
    forall|i: int| 0 <= i < h.len() ==> is_hash((#[trigger] h[i]).key, h[i].phrase)
}

/// The word that ends before the byte `start` of `line`, cut to its first 30 characters.
pub fn word_before(line: &str, start: usize) -> (r: Option<String>)
    requires
        is_char_boundary(encode_utf8(line@), start as int),
        start <= encode_utf8(line@).len(),
    ensures
        match r {
            Some(w) => cut_word(line@, start as int) == Some(w@),
            None => cut_word(line@, start as int) is None,
        },
{
    let before = line.split_at(start).0;
    let w = words_of(before);
    proof {
        encode_utf8_decode_utf8(before@);
        assert(before@ == decode_utf8(encode_utf8(line@).subrange(0, start as int)));
    }
    if w.len() == 0 {
        assert(views(w@).len() == 0);
        return None;
    }
    let last = &w[w.len() - 1];
    assert(views(w@).last() == last@);
    let v = chars_of(last.as_str());
    if v.len() <= CONTEXT_CHARS {
        Some(last.clone())
    } else {
        Some(string_of(v.as_slice(), 0, CONTEXT_CHARS))
    }
}

/// The word that ends before the byte `start` of `line`, cut, in lowercase.
fn left_context(line: &str, start: usize) -> (r: Option<String>)
    requires
        is_char_boundary(encode_utf8(line@), start as int),
        start <= encode_utf8(line@).len(),
    ensures
        match r {
            Some(w) => left_word(line@, start as int) == Some(w@),
            None => left_word(line@, start as int) is None,
        },
{
    match word_before(line, start) {
        Some(w) => Some(to_lowercase(w.as_str())),
        None => None,
    }
}

// ---------------------------------------------------------------------------------------------
// Comment lines
// ---------------------------------------------------------------------------------------------
/// A line that opens, past white space, with `#`, `//`, `/*`, `*`, `<!--` or `>`.
pub open spec fn is_comment(line: Seq<char>) -> bool {
    let s = trimmed(line);
    ||| "#"@.is_prefix_of(s)
    ||| "//"@.is_prefix_of(s)
    ||| "/*"@.is_prefix_of(s)
    ||| "*"@.is_prefix_of(s)
    ||| "<!--"@.is_prefix_of(s)
    ||| ">"@.is_prefix_of(s)
}

/// Whether a line opens with the marks of a comment.
fn opens_comment(line: &str) -> (r: bool)
    ensures
        r == is_comment(line@),
{
    let s = trim(line);
    starts_with(s, "#") || starts_with(s, "//") || starts_with(s, "/*") || starts_with(s, "*")
        || starts_with(s, "<!--") || starts_with(s, ">")
}

/// How many of the lines open with the marks of a comment.
pub open spec fn comment_lines(ls: Seq<Seq<char>>) -> nat {
    ls.filter(|l: Seq<char>| is_comment(l)).len()
}

// ---------------------------------------------------------------------------------------------
// Left contexts
// ---------------------------------------------------------------------------------------------
/// The left contexts that are sampled: the phrase, in lowercase, with the word before it, for each
/// of the first five occurrences of the phrase, in the case in which it stands there, that has a
/// word before it.
pub open spec fn sampled(h: Seq<Occ>) -> Multiset<(Seq<char>, Seq<char>)>
    decreases h.len(),
{
    if h.len() == 0 {
        Multiset::empty()
    } else {
        let before = sampled(h.drop_last());
        let o = h.last();
        if o.context is Some && of_phrase(h, o.key).len() <= 5 {
            before.insert((lowercase(o.phrase), o.context->0))
        } else {
            before
        }
    }
}

/// `t` holds the pairs of `m`, each as often as `m` does as far as a counter reaches.
pub open spec fn holds_sample(t: ContextTable, m: Multiset<(Seq<char>, Seq<char>)>) -> bool {
    &&& t.wf()
    &&& forall|k: Seq<char>, c: Seq<char>| #[trigger]
        t@.count((k, c)) == counted(m.count((k, c)))
}

// ---------------------------------------------------------------------------------------------
// Extraction
// ---------------------------------------------------------------------------------------------
/// What is known of one file as a whole.
#[derive(Clone, Copy, Debug, PartialEq, Eq, Structural)]
pub struct FileStats {
    /// The file.
    pub file: i64,
    /// How many different phrases it has.
    pub token_len: usize,
    /// How many bytes it has.
    pub content_len: usize,
    /// How many of its lines open with the marks of a comment.
    pub comment_lines: usize,
    /// How many lines it has.
    pub lines: usize,
}

/// What one worker found in its files.
pub struct WorkerResult {
    /// The occurrences, summed up.
    pub tables: PhraseTables,
    /// The left contexts.
    pub left_ctx: ContextTable,
    /// The files, in the order in which they were read.
    pub stats: Vec<FileStats>,
    /// For each file its path and the digest of its content.
    pub digests: Vec<(String, String)>,
    /// Left contexts are sampled.
    pub track: bool,
}

impl WorkerResult {
    /// The tables sum up the occurrences, and the left contexts are those sampled from them.
    pub open spec fn wf(&self) -> bool {
        &&& self.tables.wf()
        &&& holds_sample(
            self.left_ctx,
            if self.track {
                sampled(self.tables@)
            } else {
                Multiset::empty()
            },
        )
    }

    /// The result of a worker that has read nothing yet.
    pub fn new(track: bool) -> (w: WorkerResult)
        ensures
            w.wf(),
            w.track == track,
            w.tables@.len() == 0,
            w.stats@.len() == 0,
            w.digests@.len() == 0,
    {
        WorkerResult {
            tables: PhraseTables::new(),
            left_ctx: ContextTable::new(),
            stats: Vec::new(),
            digests: Vec::new(),
            track,
        }
    }

    /// Records the identifier `phrase`, whose hash is `key`, that starts at the byte `start` of a
    /// line.
    pub fn record_site(
        &mut self,
        file: i64,
        line: &str,
        line_no: usize,
        zone: u8,
        start: usize,
        phrase: &str,
        key: u64,
    )
        requires
            old(self).wf(),
            zone == zone_of(line@),
            is_identifier(encode_utf8(line@), (start as int, start + encode_utf8(phrase@).len())),
            start + encode_utf8(phrase@).len() <= usize::MAX,
            phrase@ == ascii_text(
                encode_utf8(line@).subrange(start as int, start + encode_utf8(phrase@).len()),
            ),
        ensures
            final(self).wf(),
            final(self).track == old(self).track,
            final(self).stats == old(self).stats,
            final(self).digests == old(self).digests,
            final(self).tables@ == old(self).tables@.push(
                occ_at(
                    (Site {
                        line_no: line_no as int,
                        line: line@,
                        start: start as int,
                        end: start + encode_utf8(phrase@).len(),
                    }),
                    file,
                    key,
                ),
            ),
    {
        let ghost h = self.tables@;
        let ghost b = encode_utf8(line@);
        proof {
            encode_utf8_valid_utf8(line@);
            lemma_ascii_boundary(b, start as int);
        }
        let is_def = zone == 0 && is_definition(phrase, line, start);
        let ghost word = left_word(line@, start as int);
        self.tables.record(key, file, phrase, line_no, zone, is_def, Ghost(word));
        let ghost o = self.tables@.last();
        assert(self.tables@.drop_last() =~= h);
        if self.track {
            if self.tables.seen(key) <= 5 {
                match left_context(line, start) {
                    Some(w) => {
                        let ghost before = self.left_ctx@;
                        let ghost m = sampled(h);
                        let lc_key = to_lowercase(phrase);
                        let ghost pair = (lc_key@, w@);
                        self.left_ctx.add(lc_key, w, 1);
                        proof {
                            broadcast use {
                                vstd::multiset::lemma_update_same,
                                vstd::multiset::lemma_update_different,
                                vstd::multiset::lemma_insert_containment,
                                vstd::multiset::lemma_insert_increases_count_by_1,
                                vstd::multiset::lemma_insert_other_elements_unchanged,
                            };

                            assert(sampled(self.tables@) == m.insert(pair));
                            assert forall|k: Seq<char>, c: Seq<char>| #[trigger]
                                self.left_ctx@.count((k, c)) == counted(
                                    m.insert(pair).count((k, c)),
                                ) by {
                                assert(before.count((k, c)) == counted(m.count((k, c))));
                            }
                            assert(holds_sample(self.left_ctx, sampled(self.tables@)));
                        }
                    },
                    None => {},
                }
            }
        }
    }

    /// Reads one file: records the identifiers of its lines, what is known of it as a whole and
    /// the digest of its content.
    pub fn index_file(&mut self, file: i64, rel: &str, text: &str)
        requires
            old(self).wf(),
        ensures
            final(self).wf(),
            final(self).track == old(self).track,
            exists|keys: Seq<u64>|
                {
                    &&& keys.len() == sites(lines(text@)).len()
                    &&& final(self).tables@ == old(self).tables@ + #[trigger] occs_at(
                        sites(lines(text@)),
                        file,
                        keys,
                    )
                    &&& hashed(occs_at(sites(lines(text@)), file, keys))
                    &&& final(self).stats@ == old(self).stats@.push(file_stats(file, text@, keys))
                },
            final(self).digests@.len() == old(self).digests@.len() + 1,
            final(self).digests@.drop_last() == old(self).digests@,
            final(self).digests@.last().0@ == rel@,
            final(self).digests@.last().1@ == hex(sha256_of(encode_utf8(text@))),
    {
        broadcast use vstd::std_specs::hash::group_hash_axioms;

        let ghost h = self.tables@;
        let ls = lines_of(text);
        let ghost ll = lines(text@);
        let mut keys_seen: HashSet<u64> = HashSet::new();
        let mut comments: usize = 0;
        let ghost mut keys: Seq<u64> = Seq::empty();
        let mut i: usize = 0;
        proof {
            reveal(Seq::filter);
            assert(occs_at(sites(ll.take(0)), file, keys) =~= Seq::empty());
            assert(keys.to_set() =~= Set::empty());
        }
        while i < ls.len()
            invariant
                i <= ls@.len(),
                views(ls@) == ll,
                self.wf(),
                self.track == old(self).track,
                self.stats == old(self).stats,
                self.digests == old(self).digests,
                keys.len() == sites(ll.take(i as int)).len(),
                self.tables@ == h + occs_at(sites(ll.take(i as int)), file, keys),
                hashed(occs_at(sites(ll.take(i as int)), file, keys)),
                keys_seen@ == keys.to_set(),
                comments <= i,
                comments == comment_lines(ll.take(i as int)),
            decreases ls@.len() - i,
        {
            let line = ls[i].as_str();
            assert(ll[i as int] == line@);
            assert(ll.take(i + 1).drop_last() =~= ll.take(i as int));
            let ghost before = sites(ll.take(i as int));
            let ghost here = line_sites(line@, i as int);
            proof {
                reveal(Seq::filter);
            }
            if opens_comment(line) {
                comments += 1;
            }
            let zone = line_zone(line);
            let found = scan_identifiers(line);
            let width: usize = line.as_bytes().len();
            proof {
                lemma_identifiers_from(encode_utf8(line@), 0);
                assert(before + here.take(0) =~= before);
            }
            let mut j: usize = 0;
            while j < found.len()
                invariant
                    j <= found@.len(),
                    i < ls@.len(),
                    self.wf(),
                    self.track == old(self).track,
                    self.stats == old(self).stats,
                    self.digests == old(self).digests,
                    zone == zone_of(line@),
                    here == line_sites(line@, i as int),
                    width == encode_utf8(line@).len(),
                    all_identifiers(encode_utf8(line@), 0, identifiers(encode_utf8(line@))),
                    found@.len() == here.len(),
                    forall|k: int|
                        #![trigger found@[k]]
                        0 <= k < found@.len() ==> {
                            let (s, e) = identifiers(encode_utf8(line@))[k];
                            &&& found@[k].0 == s
                            &&& encode_utf8(found@[k].1@) == encode_utf8(line@).subrange(s, e)
                            &&& found@[k].1@ == ascii_text(encode_utf8(line@).subrange(s, e))
                        },
                    keys.len() == before.len() + j,
                    self.tables@ == h + occs_at(before + here.take(j as int), file, keys),
                    hashed(occs_at(before + here.take(j as int), file, keys)),
                    keys_seen@ == keys.to_set(),
                decreases found@.len() - j,
            {
                let (start, phrase) = found[j];
                let key = phrase_hash(phrase);
                let ghost p = identifiers(encode_utf8(line@))[j as int];
                assert(is_identifier(encode_utf8(line@), p));
                assert(here[j as int].end == start + encode_utf8(phrase@).len());
                self.record_site(file, line, i, zone, start, phrase, key);
                let added = keys_seen.insert(key);
                proof {
                    let more = keys.push(key);
                    assert(more.to_set() =~= keys.to_set().insert(key)) by {
                        assert forall|x: u64| #[trigger] more.to_set().contains(x) <==> keys.to_set().insert(key).contains(x) by {
                            if more.contains(x) && x != key {
                                let q = choose|q: int| 0 <= q < more.len() && more[q] == x;
                                assert(keys[q] == x);
                            }
                            if keys.contains(x) {
                                let q = choose|q: int| 0 <= q < keys.len() && keys[q] == x;
                                assert(more[q] == x);
                            }
                            assert(more[keys.len() as int] == key);
                        }
                    }
                    assert(occs_at(before + here.take(j + 1), file, more) =~= occs_at(
                        before + here.take(j as int),
                        file,
                        keys,
                    ).push(occ_at(here[j as int], file, key)));
                    assert(h + occs_at(before + here.take(j + 1), file, more) =~= (h + occs_at(
                        before + here.take(j as int),
                        file,
                        keys,
                    )).push(occ_at(here[j as int], file, key)));
                    keys = more;
                }
                j += 1;
            }
            assert(before + here.take(j as int) =~= sites(ll.take(i + 1)));
            i += 1;
        }
        assert(ll.take(i as int) =~= ll);
        let bytes = text.as_bytes();
        self.stats.push(
            FileStats {
                file,
                token_len: keys_seen.len(),
                content_len: bytes.len(),
                comment_lines: comments,
                lines: ls.len(),
            },
        );
        self.digests.push((rel.to_owned(), content_digest(bytes)));
        proof {
            assert(final(self).stats@ =~= old(self).stats@.push(file_stats(file, text@, keys)));
            assert(occs_at(sites(lines(text@)), file, keys) == occs_at(sites(ll), file, keys));
        }
    }
}

/// What is known as a whole of a file with the given text whose identifiers have the given hashes.
pub open spec fn file_stats(file: i64, text: Seq<char>, keys: Seq<u64>) -> FileStats {
    FileStats {
        file,
        token_len: keys.to_set().len() as usize,
        content_len: encode_utf8(text).len() as usize,
        comment_lines: comment_lines(lines(text)) as usize,
        lines: lines(text).len() as usize,
    }
}

// ---------------------------------------------------------------------------------------------
// Laws
// ---------------------------------------------------------------------------------------------
/// The sites of a text are the identifiers of its lines, line by line: each knows its line, the
/// number of it counted from 0, and the bytes where it starts and ends.
pub proof fn law_sites_by_line(ls: Seq<Seq<char>>, l: Seq<char>, k: int)
    ensures
        sites(Seq::empty()).len() == 0,
        sites(ls.push(l)).len() == sites(ls).len() + identifiers(encode_utf8(l)).len(),
        0 <= k < sites(ls).len() ==> sites(ls.push(l))[k] == sites(ls)[k],
        0 <= k < identifiers(encode_utf8(l)).len() ==> {
            let s = sites(ls.push(l))[sites(ls).len() + k];
            &&& s.line == l
            &&& s.line_no == ls.len()
            &&& s.start == identifiers(encode_utf8(l))[k].0
            &&& s.end == identifiers(encode_utf8(l))[k].1
        },
{
    assert(ls.push(l).drop_last() =~= ls);
}

/// What is recorded of a site: its bytes as the phrase, its line, the zone of the line, and that it
/// is a definition exactly where it has the shape of one in a line of code.
pub proof fn law_occurrence_of_site(s: Site, file: i64, key: u64, j: int)
    requires
        0 <= s.start <= s.end <= encode_utf8(s.line).len(),
        0 <= j < s.end - s.start,
        forall|i: int| s.start <= i < s.end ==> encode_utf8(s.line)[i] < 0x80,
    ensures
        occ_at(s, file, key).key == key,
        occ_at(s, file, key).file == file,
        occ_at(s, file, key).phrase.len() == s.end - s.start,
        occ_at(s, file, key).phrase[j] as int == encode_utf8(s.line)[s.start + j],
        occ_at(s, file, key).line == s.line_no,
        occ_at(s, file, key).zone == zone_of(s.line),
        occ_at(s, file, key).is_def ==> zone_of(s.line) == 0,
        zone_of(s.line) == 0 ==> (occ_at(s, file, key).is_def <==> defines(
            encode_utf8(s.line),
            s.start,
            s.end,
        )),
        occ_at(s, file, key).context == left_word(s.line, s.start),
{
}

/// The context of a phrase is the last word before it, in lower case and cut to 30 characters. There
/// is none exactly where no word stands before it.
pub proof fn law_context_is_last_word(line: Seq<char>, start: int)
    ensures
        left_word(line, start) is None <==> words(
            decode_utf8(encode_utf8(line).subrange(0, start)),
        ).len() == 0,
        words(decode_utf8(encode_utf8(line).subrange(0, start))).len() > 0 ==> exists|c: Seq<char>|
            {
                let w = words(decode_utf8(encode_utf8(line).subrange(0, start))).last();
                &&& left_word(line, start) == Some(#[trigger] lowercase(c))
                &&& c.is_prefix_of(w)
                &&& c.len() <= 30
                &&& c.len() == 30 || c == w
            },
{
    let ws = words(decode_utf8(encode_utf8(line).subrange(0, start)));
    if ws.len() > 0 {
        let w = ws.last();
        let c = cut_word(line, start)->0;
        assert(c.is_prefix_of(w)) by {
            assert(c =~= w.subrange(0, c.len() as int));
        }
        assert(left_word(line, start) == Some(lowercase(c)));
    }
}

/// A line counts as a comment where it starts, behind white space, with `#`, `*` or `>`, with two
/// slashes or a slash and an asterisk, or with `<!--`.
pub proof fn law_comment_marks(line: Seq<char>)
    ensures
        is_comment(line) <==> {
            let s = trimmed(line);
            ||| s.len() >= 1 && (s[0] == '#' || s[0] == '*' || s[0] == '>')
            ||| s.len() >= 2 && s[0] == '/' && (s[1] == '/' || s[1] == '*')
            ||| s.len() >= 4 && s[0] == '<' && s[1] == '!' && s[2] == '-' && s[3] == '-'
        },
{
    let s = trimmed(line);
    reveal_strlit("#");
    reveal_strlit("//");
    reveal_strlit("/*");
    reveal_strlit("*");
    reveal_strlit("<!--");
    reveal_strlit(">");
    lemma_starts_with(s, "#"@);
    lemma_starts_with(s, "//"@);
    lemma_starts_with(s, "/*"@);
    lemma_starts_with(s, "*"@);
    lemma_starts_with(s, "<!--"@);
    lemma_starts_with(s, ">"@);
    assert("#"@[0] == '#' && "*"@[0] == '*' && ">"@[0] == '>');
    assert("//"@[0] == '/' && "//"@[1] == '/' && "/*"@[0] == '/' && "/*"@[1] == '*');
    assert("<!--"@[0] == '<' && "<!--"@[1] == '!' && "<!--"@[2] == '-' && "<!--"@[3] == '-');
}

/// A text starts with another where their characters agree.
proof fn lemma_starts_with(s: Seq<char>, p: Seq<char>)
    ensures
        p.is_prefix_of(s) <==> p.len() <= s.len() && forall|i: int|
            0 <= i < p.len() ==> #[trigger] p[i] == s[i],
{
    if p.is_prefix_of(s) {
        assert forall|i: int| 0 <= i < p.len() implies #[trigger] p[i] == s[i] by {
            assert(s.subrange(0, p.len() as int)[i] == s[i]);
        }
    }
    if p.len() <= s.len() && forall|i: int| 0 <= i < p.len() ==> #[trigger] p[i] == s[i] {
        assert(p =~= s.subrange(0, p.len() as int));
    }
}

/// The lines that are comments are counted one by one.
pub proof fn law_comment_lines_count(ls: Seq<Seq<char>>, l: Seq<char>)
    ensures
        comment_lines(Seq::empty()) == 0,
        is_comment(l) ==> comment_lines(ls.push(l)) == comment_lines(ls) + 1,
        !is_comment(l) ==> comment_lines(ls.push(l)) == comment_lines(ls),
{
    reveal(Seq::filter);
    assert(ls.push(l).drop_last() =~= ls);
}

/// Which contexts are sampled: those of the first five occurrences of each phrase, where there is
/// one, under the phrase in lower case.
pub proof fn law_first_five_sampled(h: Seq<Occ>, o: Occ)
    ensures
        sampled(Seq::empty()) == Multiset::<(Seq<char>, Seq<char>)>::empty(),
        o.context is Some && h.filter(|x: Occ| x.key == o.key).len() < 5 ==> sampled(h.push(o))
            == sampled(h).insert((lowercase(o.phrase), o.context->0)),
        o.context is None || h.filter(|x: Occ| x.key == o.key).len() >= 5 ==> sampled(h.push(o))
            == sampled(h),
{
    reveal(Seq::filter);
    assert(h.push(o).drop_last() =~= h);
    assert(h.push(o).last() == o);
}

/// What is known of a file that was read: how many different phrases, bytes, lines and lines of
/// comment it has.
pub proof fn law_file_measured(file: i64, text: Seq<char>, keys: Seq<u64>)
    requires
        keys.to_set().len() <= usize::MAX,
        encode_utf8(text).len() <= usize::MAX,
        comment_lines(lines(text)) <= usize::MAX,
        lines(text).len() <= usize::MAX,
    ensures
        file_stats(file, text, keys).file == file,
        file_stats(file, text, keys).token_len == keys.to_set().len(),
        file_stats(file, text, keys).content_len == encode_utf8(text).len(),
        file_stats(file, text, keys).comment_lines == comment_lines(lines(text)),
        file_stats(file, text, keys).lines == lines(text).len(),
{
}

/// A table that holds a sample counts every context of every phrase as often as it was sampled, up to
/// the largest number.
pub proof fn law_sample_held(
    t: ContextTable,
    m: Multiset<(Seq<char>, Seq<char>)>,
    phrase: Seq<char>,
    word: Seq<char>,
)
    requires
        holds_sample(t, m),
    ensures
        m.count((phrase, word)) <= u32::MAX ==> t@.count((phrase, word)) == m.count((phrase, word)),
        m.count((phrase, word)) > u32::MAX ==> t@.count((phrase, word)) == u32::MAX,
{
}

/// Every occurrence that was recorded goes by the hash of its phrase.
pub proof fn law_keys_are_hashes(h: Seq<Occ>, i: int)
    requires
        hashed(h),
        0 <= i < h.len(),
    ensures
        is_hash(h[i].key, h[i].phrase),
{
}

} // verus!
