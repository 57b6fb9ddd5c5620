//! Lines and identifiers: which lines are code, which byte runs are identifiers, and which
//! identifiers stand where a definition would put them.

use regex::Regex;
use vstd::prelude::*;
use vstd::utf8::*;

use crate::text::{
    is_white, law_trimming, lemma_same_bytes, occurs_at, trim, trimmed, views, words, words_of,
};

verus! {

broadcast use vstd::seq::group_seq_axioms;

// ---------------------------------------------------------------------------------------------
// Identifiers
// ---------------------------------------------------------------------------------------------
/// A byte that can start an identifier: `[a-zA-Z_]`.
pub open spec fn is_ident_start(b: u8) -> bool {
    ||| 0x41 <= b <= 0x5a
    ||| 0x61 <= b <= 0x7a
    ||| b == 0x5f
}

/// A byte that can continue an identifier: `[a-zA-Z0-9_]`.
pub open spec fn is_ident_byte(b: u8) -> bool {
    ||| is_ident_start(b)
    ||| 0x30 <= b <= 0x39
}

fn ident_start(b: u8) -> (r: bool)
    ensures
        r == is_ident_start(b),
{
    (0x41 <= b && b <= 0x5a) || (0x61 <= b && b <= 0x7a) || b == 0x5f
}

fn ident_byte(b: u8) -> (r: bool)
    ensures
        r == is_ident_byte(b),
{
    ident_start(b) || (0x30 <= b && b <= 0x39)
}

/// Where the run of identifier bytes that covers `from` ends.
pub open spec fn run_end(b: Seq<u8>, from: int) -> int
    decreases b.len() - from,
{
    if 0 <= from < b.len() && is_ident_byte(b[from]) {
        run_end(b, from + 1)
    } else {
        from
    }
}

pub proof fn lemma_run_end(b: Seq<u8>, from: int)
    requires
        0 <= from <= b.len(),
    ensures
        from <= run_end(b, from) <= b.len(),
        run_end(b, from) < b.len() ==> !is_ident_byte(b[run_end(b, from)]),
        forall|k: int| from <= k < run_end(b, from) ==> is_ident_byte(b[k]),
    decreases b.len() - from,
{
    if from < b.len() && is_ident_byte(b[from]) {
        lemma_run_end(b, from + 1);
    }
}

/// The identifiers of at least three bytes in `b` from `from` on, each as its start and its end.
pub open spec fn identifiers_from(b: Seq<u8>, from: int) -> Seq<(int, int)>
    decreases b.len() - from,
    via identifiers_from_decreases
{
    if 0 <= from < b.len() {
        if is_ident_start(b[from]) {
            let e = run_end(b, from + 1);
            if e - from >= 3 {
                seq![(from, e)] + identifiers_from(b, e)
            } else {
                identifiers_from(b, e)
            }
        } else {
            identifiers_from(b, from + 1)
        }
    } else {
        Seq::empty()
    }
}

#[via_fn]
proof fn identifiers_from_decreases(b: Seq<u8>, from: int) {
    if 0 <= from < b.len() {
        lemma_run_end(b, from + 1);
    }
}

/// The identifiers of at least three bytes in `b`, each as its start and its end.
pub open spec fn identifiers(b: Seq<u8>) -> Seq<(int, int)> {
    identifiers_from(b, 0)
}

/// The characters of a run of ASCII bytes.
pub open spec fn ascii_text(b: Seq<u8>) -> Seq<char> {
    Seq::new(b.len(), |i: int| b[i] as char)
}

/// The identifiers of at least three bytes in the text `s`, in order.
pub open spec fn phrases(s: Seq<char>) -> Seq<Seq<char>> {
    let b = encode_utf8(s);
    identifiers(b).map_values(|p: (int, int)| ascii_text(b.subrange(p.0, p.1)))
}

/// At least three identifier bytes, the first one no digit, with no identifier byte behind them.
pub open spec fn is_identifier(b: Seq<u8>, p: (int, int)) -> bool {
    &&& 0 <= p.0
    &&& p.0 + 3 <= p.1 <= b.len()
    &&& is_ident_start(b[p.0])
    &&& forall|j: int| p.0 <= j < p.1 ==> #[trigger] is_ident_byte(b[j])
    &&& p.1 < b.len() ==> !is_ident_byte(b[p.1])
}

/// Every span of `m` is an identifier of `b`, and none starts before `from`.
pub open spec fn all_identifiers(b: Seq<u8>, from: int, m: Seq<(int, int)>) -> bool {
    forall|k: int| 0 <= k < m.len() ==> is_identifier(b, #[trigger] m[k]) && from <= m[k].0
}

/// Every span that the scan reports is an identifier.
pub proof fn lemma_identifiers_from(b: Seq<u8>, from: int)
    requires
        0 <= from <= b.len(),
    ensures
        all_identifiers(b, from, identifiers_from(b, from)),
    decreases b.len() - from,
{
    if from < b.len() {
        if is_ident_start(b[from]) {
            let e = run_end(b, from + 1);
            lemma_run_end(b, from + 1);
            lemma_identifiers_from(b, e);
            if e - from >= 3 {
                assert(is_identifier(b, (from, e)));
            }
        } else {
            lemma_identifiers_from(b, from + 1);
        }
    }
}

/// An ASCII byte of a valid encoding has a character boundary before and behind it.
pub proof fn lemma_ascii_boundary(b: Seq<u8>, i: int)
    requires
        valid_utf8(b),
        0 <= i < b.len(),
        b[i] < 0x80,
    ensures
        is_char_boundary(b, i),
        is_char_boundary(b, i + 1),
    decreases b.len(),
{
    is_char_boundary_iff_is_leading_byte(b, i);
    let n = length_of_first_scalar(b);
    if i >= n {
        lemma_ascii_boundary(pop_first_scalar(b), i - n);
        assert(pop_first_scalar(b)[i - n] == b[i]);
    } else {
        assert(i == 0 && n == 1) by {
            reveal_with_fuel(is_char_boundary, 2);
        }
        reveal_with_fuel(is_char_boundary, 2);
    }
}

/// A string whose bytes are all ASCII holds the characters of those bytes.
pub proof fn lemma_ascii_text(s: Seq<char>, b: Seq<u8>)
    requires
        encode_utf8(s) == b,
        forall|k: int| 0 <= k < b.len() ==> b[k] < 0x80,
    ensures
        s == ascii_text(b),
        is_ascii_chars(s),
{
    let t = ascii_text(b);
    assert(is_ascii_chars(t));
    is_ascii_chars_encode_utf8(t);
    assert forall|k: int| 0 <= k < b.len() implies encode_utf8(t)[k] == b[k] by {
        assert(t[k] as u8 == encode_utf8(t)[k]);
    }
    assert(encode_utf8(t) =~= b);
    lemma_same_bytes(s, t);
}

/// The part of `text` between two byte positions that ASCII bytes delimit.
fn slice<'a>(text: &'a str, from: usize, to: usize) -> (t: &'a str)
    requires
        from < to <= encode_utf8(text@).len(),
        forall|k: int| from <= k < to ==> encode_utf8(text@)[k] < 0x80,
    ensures
        encode_utf8(t@) == encode_utf8(text@).subrange(from as int, to as int),
        t@ == ascii_text(encode_utf8(text@).subrange(from as int, to as int)),
        is_ascii_chars(t@),
{
    proof {
        encode_utf8_valid_utf8(text@);
        lemma_ascii_boundary(encode_utf8(text@), to - 1);
        lemma_ascii_boundary(encode_utf8(text@), from as int);
    }
    let tail = text.split_at(from).1;
    proof {
        encode_utf8_valid_utf8(tail@);
        assert(encode_utf8(tail@)[to - from - 1] == encode_utf8(text@)[to - 1]);
        lemma_ascii_boundary(encode_utf8(tail@), to - from - 1);
    }
    let t = tail.split_at(to - from).0;
    assert(encode_utf8(t@) =~= encode_utf8(text@).subrange(from as int, to as int));
    proof {
        lemma_ascii_text(t@, encode_utf8(t@));
    }
    t
}

/// The identifiers of at least three bytes in `text`, each with the byte position at which it
/// starts.
pub fn scan_identifiers<'a>(text: &'a str) -> (r: Vec<(usize, &'a str)>)
    ensures
        r@.len() == identifiers(encode_utf8(text@)).len(),
        forall|k: int|
            #![trigger r@[k]]
            0 <= k < r@.len() ==> {
                let (s, e) = identifiers(encode_utf8(text@))[k];
                &&& r@[k].0 == s
                &&& encode_utf8(r@[k].1@) == encode_utf8(text@).subrange(s, e)
                &&& r@[k].1@ == phrases(text@)[k]
                &&& is_ascii_chars(r@[k].1@)
            },
{
    let bytes = text.as_bytes();
    let ghost b = encode_utf8(text@);
    let mut r: Vec<(usize, &'a str)> = Vec::new();
    let mut i: usize = 0;
    let ghost mut done: Seq<(int, int)> = Seq::empty();
    assert(done + identifiers_from(b, 0) =~= identifiers(b));
    while i < bytes.len()
        invariant
            bytes@ == b,
            b == encode_utf8(text@),
            i <= b.len(),
            done + identifiers_from(b, i as int) == identifiers(b),
            r@.len() == done.len(),
            forall|k: int|
                #![trigger r@[k]]
                0 <= k < r@.len() ==> {
                    let (s, e) = done[k];
                    &&& r@[k].0 == s
                    &&& encode_utf8(r@[k].1@) == b.subrange(s, e)
                    &&& r@[k].1@ == ascii_text(b.subrange(s, e))
                    &&& is_ascii_chars(r@[k].1@)
                },
        decreases b.len() - i,
    {
        if ident_start(bytes[i]) {
            let start = i;
            i += 1;
            while i < bytes.len() && ident_byte(bytes[i])
                invariant
                    bytes@ == b,
                    start < i <= b.len(),
                    run_end(b, start + 1) == run_end(b, i as int),
                decreases b.len() - i,
            {
                i += 1;
            }
            proof {
                lemma_run_end(b, start + 1);
            }
            if i - start >= 3 {
                r.push((start, slice(text, start, i)));
                proof {
                    let p = (start as int, i as int);
                    assert(done.push(p) + identifiers_from(b, i as int) =~= done + (seq![p]
                        + identifiers_from(b, i as int)));
                    done = done.push(p);
                }
            }
        } else {
            i += 1;
        }
    }
    assert(done =~= identifiers(b));
    r
}

// ---------------------------------------------------------------------------------------------
// Identifiers by regular expression
// ---------------------------------------------------------------------------------------------
/// The shape of a phrase: an identifier of at least three characters.
pub const PHRASE_PATTERN: &'static str = "[a-zA-Z_][a-zA-Z0-9_]{2,}";

/// The bytes `b[s..e]` have the shape of a phrase.
pub open spec fn has_phrase_shape(b: Seq<u8>, s: int, e: int) -> bool {
    &&& 0 <= s
    &&& s + 3 <= e <= b.len()
    &&& is_ident_start(b[s])
    &&& forall|j: int| s < j < e ==> #[trigger] is_ident_byte(b[j])
}

/// `p` is the leftmost match at or after `from`, and the longest one there.
pub open spec fn is_next_match(b: Seq<u8>, from: int, p: (int, int)) -> bool {
    &&& from <= p.0
    &&& has_phrase_shape(b, p.0, p.1)
    &&& forall|s: int, e: int| from <= s < p.0 ==> !#[trigger] has_phrase_shape(b, s, e)
    &&& forall|e: int| p.1 < e ==> !#[trigger] has_phrase_shape(b, p.0, e)
}

/// `m` is the sequence of successive matches that do not overlap, from `from` on.
pub open spec fn are_matches(b: Seq<u8>, from: int, m: Seq<(int, int)>) -> bool
    decreases m.len(),
{
    if m.len() == 0 {
        forall|s: int, e: int| from <= s ==> !#[trigger] has_phrase_shape(b, s, e)
    } else {
        is_next_match(b, from, m[0]) && are_matches(b, m[0].1, m.drop_first())
    }
}

/// `Regex::find_iter` with the phrase pattern reports the successive matches that do not overlap,
/// leftmost first, each as long as its repetition can make it, as byte positions.
#[verifier::external_body]
fn find_matches(pattern: &str, text: &str) -> (m: Vec<(usize, usize)>)
    requires
        pattern@ == PHRASE_PATTERN@,
    ensures
        are_matches(
            encode_utf8(text@),
            0,
            m@.map_values(|p: (usize, usize)| (p.0 as int, p.1 as int)),
        ),
{
    Regex::new(pattern).unwrap().find_iter(text).map(|x| (x.start(), x.end())).collect()
}

/// The successive matches of the phrase pattern are the identifiers that the scan reports.
pub proof fn lemma_matches_are_identifiers(b: Seq<u8>, from: int, m: Seq<(int, int)>)
    requires
        0 <= from <= b.len(),
        are_matches(b, from, m),
    ensures
        m == identifiers_from(b, from),
    decreases b.len() - from,
{
    if from < b.len() {
        if is_ident_start(b[from]) {
            let e = run_end(b, from + 1);
            lemma_run_end(b, from + 1);
            if e - from >= 3 {
                assert(has_phrase_shape(b, from, e));
                assert(m.len() > 0);
                let p = m[0];
                assert(p.0 == from) by {
                    if p.0 > from {
                        assert(!has_phrase_shape(b, from, e));
                    }
                }
                assert(p.1 == e) by {
                    if p.1 < e {
                        assert(!has_phrase_shape(b, from, e));
                    } else if p.1 > e {
                        assert(is_ident_byte(b[e]));
                    }
                }
                lemma_matches_are_identifiers(b, e, m.drop_first());
                assert(m =~= seq![p] + m.drop_first());
            } else {
                assert forall|s: int, t: int| from <= s < e implies !#[trigger] has_phrase_shape(
                    b,
                    s,
                    t,
                ) by {
                    if has_phrase_shape(b, s, t) {
                        assert(s < e < t);
                        assert(is_ident_byte(b[e]));
                    }
                }
                lemma_matches_skip(b, from, e, m);
                lemma_matches_are_identifiers(b, e, m);
            }
        } else {
            lemma_matches_skip(b, from, from + 1, m);
            lemma_matches_are_identifiers(b, from + 1, m);
        }
    } else {
        assert(m =~= Seq::empty());
    }
}

/// Where nothing of the shape of a phrase starts in `from..to`, the matches from `from` on are
/// those from `to` on.
proof fn lemma_matches_skip(b: Seq<u8>, from: int, to: int, m: Seq<(int, int)>)
    requires
        0 <= from <= to <= b.len(),
        are_matches(b, from, m),
        forall|s: int, t: int| from <= s < to ==> !#[trigger] has_phrase_shape(b, s, t),
    ensures
        are_matches(b, to, m),
{
    if m.len() > 0 {
        assert(has_phrase_shape(b, m[0].0, m[0].1));
    }
}

/// The identifiers that the scan reports are successive matches of the phrase pattern.
pub proof fn lemma_identifiers_are_matches(b: Seq<u8>, from: int)
    requires
        0 <= from <= b.len(),
    ensures
        are_matches(b, from, identifiers_from(b, from)),
    decreases b.len() - from,
{
    let m = identifiers_from(b, from);
    if from < b.len() {
        if is_ident_start(b[from]) {
            let e = run_end(b, from + 1);
            lemma_run_end(b, from + 1);
            lemma_identifiers_are_matches(b, e);
            let rest = identifiers_from(b, e);
            if e - from >= 3 {
                assert(m.drop_first() =~= rest);
                assert forall|t: int| e < t implies !#[trigger] has_phrase_shape(b, from, t) by {
                    if has_phrase_shape(b, from, t) {
                        assert(is_ident_byte(b[e]));
                    }
                }
                assert(is_next_match(b, from, m[0]));
            } else {
                assert forall|s: int, t: int| from <= s < e implies !#[trigger] has_phrase_shape(
                    b,
                    s,
                    t,
                ) by {
                    if has_phrase_shape(b, s, t) {
                        assert(is_ident_byte(b[e]));
                    }
                }
                lemma_matches_widen(b, from, e, rest);
            }
        } else {
            lemma_identifiers_are_matches(b, from + 1);
            lemma_matches_widen(b, from, from + 1, identifiers_from(b, from + 1));
        }
    }
}

/// Where nothing of the shape of a phrase starts in `from..to`, the matches from `to` on are
/// those from `from` on.
proof fn lemma_matches_widen(b: Seq<u8>, from: int, to: int, m: Seq<(int, int)>)
    requires
        0 <= from <= to <= b.len(),
        are_matches(b, to, m),
        forall|s: int, t: int| from <= s < to ==> !#[trigger] has_phrase_shape(b, s, t),
    ensures
        are_matches(b, from, m),
{
}

/// The byte scan and the phrase pattern find the same phrases: a sequence of spans is the sequence
/// of successive matches of the pattern in a text if and only if it is what the scan reports.
pub proof fn law_scan_agrees_with_pattern(text: Seq<char>, m: Seq<(int, int)>)
    ensures
        are_matches(encode_utf8(text), 0, m) <==> m == identifiers(encode_utf8(text)),
{
    let b = encode_utf8(text);
    lemma_identifiers_are_matches(b, 0);
    if are_matches(b, 0, m) {
        lemma_matches_are_identifiers(b, 0, m);
    }
}

/// The identifiers of at least three characters in `text`, in order.
pub fn extract_phrases(text: &str) -> (r: Vec<String>)
    ensures
        views(r@) == phrases(text@),
        forall|k: int| 0 <= k < r@.len() ==> is_ascii_chars(#[trigger] r@[k]@),
{
    let m = find_matches(PHRASE_PATTERN, text);
    let ghost b = encode_utf8(text@);
    let ghost spans = m@.map_values(|p: (usize, usize)| (p.0 as int, p.1 as int));
    proof {
        lemma_matches_are_identifiers(b, 0, spans);
        lemma_identifiers_from(b, 0);
    }
    let mut r: Vec<String> = Vec::new();
    let mut i: usize = 0;
    while i < m.len()
        invariant
            i <= m@.len(),
            b == encode_utf8(text@),
            spans == identifiers(b),
            spans == m@.map_values(|p: (usize, usize)| (p.0 as int, p.1 as int)),
            all_identifiers(b, 0, spans),
            r@.len() == i,
            forall|k: int| 0 <= k < i ==> #[trigger] r@[k]@ == phrases(text@)[k],
            forall|k: int| 0 <= k < i ==> is_ascii_chars(#[trigger] r@[k]@),
        decreases m@.len() - i,
    {
        let (s, e) = m[i];
        assert(is_identifier(b, spans[i as int]));
        assert forall|k: int| s <= k < e implies b[k] < 0x80 by {
            assert(is_ident_byte(b[k]));
        }
        r.push(slice(text, s, e).to_owned());
        i += 1;
    }
    assert(views(r@) =~= phrases(text@));
    r
}

// ---------------------------------------------------------------------------------------------
// Definitions
// ---------------------------------------------------------------------------------------------
/// A space or a tab.
pub open spec fn is_blank(b: u8) -> bool {
    b == 0x20 || b == 0x09
}

/// The first position at or after `from` that holds neither a blank nor an identifier byte.
pub open spec fn words_end(b: Seq<u8>, from: int) -> int
    decreases b.len() - from,
{
    if 0 <= from < b.len() && (is_blank(b[from]) || is_ident_byte(b[from])) {
        words_end(b, from + 1)
    } else {
        from
    }
}

/// One of `(`, `<`, `[`, `=`, `:` and `{`, or the arrow `->`, stands at `pos`.
pub open spec fn is_marker_at(b: Seq<u8>, pos: int) -> bool {
    &&& pos < b.len()
    &&& {
        ||| b[pos] == 0x28
        ||| b[pos] == 0x3c
        ||| b[pos] == 0x5b
        ||| b[pos] == 0x3d
        ||| b[pos] == 0x3a
        ||| b[pos] == 0x7b
        ||| b[pos] == 0x2d && pos + 1 < b.len() && b[pos + 1] == 0x3e
    }
}

/// A phrase at `start..end` of the line `b` stands where a definition puts it: no identifier byte
/// and no dot before it, and behind it, past any run of blanks and words, one of the marks that open
/// a definition.
pub open spec fn defines(b: Seq<u8>, start: int, end: int) -> bool {
    &&& end < b.len()
    &&& start > 0 ==> !is_ident_byte(b[start - 1]) && b[start - 1] != 0x2e
    &&& is_marker_at(b, words_end(b, end))
}

/// Skips blanks and words from `from` on.
fn skip_words(b: &[u8], from: usize) -> (r: usize)
    requires
        from <= b@.len(),
    ensures
        r == words_end(b@, from as int),
        from <= r <= b@.len(),
{
    let mut pos = from;
    while pos < b.len() && (b[pos] == 0x20 || b[pos] == 0x09 || ident_byte(b[pos]))
        invariant
            from <= pos <= b@.len(),
            words_end(b@, from as int) == words_end(b@, pos as int),
        decreases b@.len() - pos,
    {
        pos += 1;
    }
    pos
}

/// Skips identifier bytes from `from` on.
fn skip_word(b: &[u8], from: usize) -> (r: usize)
    requires
        from <= b@.len(),
    ensures
        r == run_end(b@, from as int),
        from <= r <= b@.len(),
{
    let mut pos = from;
    while pos < b.len() && ident_byte(b[pos])
        invariant
            from <= pos <= b@.len(),
            run_end(b@, from as int) == run_end(b@, pos as int),
        decreases b@.len() - pos,
    {
        pos += 1;
    }
    pos
}

/// Whether `phrase`, which starts at the byte position `match_start` of `line`, is defined there.
pub fn is_definition(phrase: &str, line: &str, match_start: usize) -> (r: bool)
    requires
        match_start + encode_utf8(phrase@).len() <= usize::MAX,
    ensures
        r == defines(
            encode_utf8(line@),
            match_start as int,
            match_start + encode_utf8(phrase@).len(),
        ),
{
    let bytes = line.as_bytes();
    let end: usize = match_start + phrase.as_bytes().len();
    if end >= bytes.len() {
        return false;
    }
    if match_start > 0 {
        let prev = bytes[match_start - 1];
        if ident_byte(prev) || prev == 0x2e {
            return false;
        }
    }
    let pos = skip_words(bytes, end);
    if pos < bytes.len() {
        let c = bytes[pos];
        if c == 0x28 || c == 0x3c || c == 0x5b || c == 0x3d || c == 0x3a || c == 0x7b {
            return true;
        }
        if c == 0x2d && pos + 1 < bytes.len() && bytes[pos + 1] == 0x3e {
            return true;
        }
    }
    false
}

/// The first position of `needle` in `hay`.
fn find(hay: &[u8], needle: &[u8]) -> (r: Option<usize>)
    ensures
        match r {
            Some(i) => {
                &&& occurs_at(hay@, needle@, i as int)
                &&& forall|j: int| 0 <= j < i ==> !#[trigger] occurs_at(hay@, needle@, j)
                &&& i + needle@.len() <= usize::MAX
            },
            None => forall|j: int| !#[trigger] occurs_at(hay@, needle@, j),
        },
{
    if needle.len() > hay.len() {
        return None;
    }
    let mut i: usize = 0;
    let last: usize = hay.len() - needle.len();
    while i <= last
        invariant
            last + needle@.len() == hay@.len(),
            i <= last + 1,
            hay@.len() <= usize::MAX,
            forall|j: int| 0 <= j < i ==> !#[trigger] occurs_at(hay@, needle@, j),
        decreases last + 1 - i,
    {
        let mut k: usize = 0;
        while k < needle.len() && hay[i + k] == needle[k]
            invariant
                last + needle@.len() == hay@.len(),
                i <= last,
                k <= needle@.len(),
                hay@.len() <= usize::MAX,
                forall|j: int| 0 <= j < k ==> hay@[i + j] == needle@[j],
            decreases needle@.len() - k,
        {
            k += 1;
        }
        if k == needle.len() {
            assert(hay@.subrange(i as int, i + needle@.len()) =~= needle@);
            return Some(i);
        }
        assert(!occurs_at(hay@, needle@, i as int)) by {
            if occurs_at(hay@, needle@, i as int) {
                assert(hay@.subrange(i as int, i + needle@.len())[k as int] == needle@[k as int]);
            }
        }
        if i == last {
            return None;
        }
        i += 1;
    }
    None
}

/// Whether the first occurrence of `phrase` in `line` is a definition.
pub fn is_definition_str(phrase: &str, line: &str) -> (r: bool)
    ensures
        r <==> exists|i: int|
            {
                &&& #[trigger] occurs_at(encode_utf8(line@), encode_utf8(phrase@), i)
                &&& forall|j: int|
                    0 <= j < i ==> !#[trigger] occurs_at(encode_utf8(line@), encode_utf8(phrase@), j)
                &&& defines(encode_utf8(line@), i, i + encode_utf8(phrase@).len())
            },
{
    match find(line.as_bytes(), phrase.as_bytes()) {
        Some(idx) => is_definition(phrase, line, idx),
        None => false,
    }
}

// ---------------------------------------------------------------------------------------------
// Code and prose
// ---------------------------------------------------------------------------------------------
/// How many bytes of `b` satisfy `p`.
pub open spec fn count(b: Seq<u8>, p: spec_fn(u8) -> bool) -> nat
    decreases b.len(),
{
    if b.len() == 0 {
        0
    } else if p(b.last()) {
        count(b.drop_last(), p) + 1
    } else {
        count(b.drop_last(), p)
    }
}

/// A lowercase ASCII letter.
pub open spec fn is_lower(b: u8) -> bool {
    0x61 <= b <= 0x7a
}

/// One of `{ } ( ) [ ] < > ; : = | & ! @ # $ % ^ * - + / ? \`.
pub open spec fn is_structural(b: u8) -> bool {
    ||| b == 0x7b || b == 0x7d || b == 0x28 || b == 0x29 || b == 0x5b || b == 0x5d || b == 0x3c || b
        == 0x3e
    ||| b == 0x3b || b == 0x3a || b == 0x3d || b == 0x7c || b == 0x26 || b == 0x21 || b == 0x40 || b
        == 0x23
    ||| b == 0x24 || b == 0x25 || b == 0x5e || b == 0x2a || b == 0x2d || b == 0x2b || b == 0x2f || b
        == 0x3f || b == 0x5c
}

/// The bytes of the words of a line, without the white space between them.
pub open spec fn word_bytes(w: Seq<Seq<char>>) -> nat
    decreases w.len(),
{
    if w.len() == 0 {
        0
    } else {
        word_bytes(w.drop_last()) + encode_utf8(w.last()).len()
    }
}

/// `b` opens with the marks of a comment, a bullet, a quotation or an HTML comment.
pub open spec fn opens_prose(b: Seq<u8>) -> bool {
    ||| b.len() >= 2 && b[0] == 0x2f && (b[1] == 0x2f || b[1] == 0x2a)
    ||| b.len() >= 1 && (b[0] == 0x2a || b[0] == 0x3e)
    ||| b.len() >= 4 && b[0] == 0x3c && b[1] == 0x21 && b[2] == 0x2d && b[3] == 0x2d
}

/// `b`, which opens with `#`, is the first line of a script, or opens a C preprocessor directive:
/// `in`, `de`, `if`, `en`, `pr`, `er` or `wa` follows the `#`.
pub open spec fn opens_directive(b: Seq<u8>) -> bool {
    ||| b.len() >= 2 && b[1] == 0x21
    ||| b.len() > 2 && {
        ||| b[1] == 0x69 && b[2] == 0x6e
        ||| b[1] == 0x64 && b[2] == 0x65
        ||| b[1] == 0x69 && b[2] == 0x66
        ||| b[1] == 0x65 && b[2] == 0x6e
        ||| b[1] == 0x70 && b[2] == 0x72
        ||| b[1] == 0x65 && b[2] == 0x72
        ||| b[1] == 0x77 && b[2] == 0x61
    }
}

/// Whether the bytes of a trimmed line with the given words read as prose: mostly lowercase
/// letters and hardly any structural bytes or identifiers. The shares are of the bytes of the
/// line: 65% and 50% for lowercase letters, 8% and 5% for structural bytes. The words of the
/// second form have fewer than six bytes on average.
pub open spec fn reads_as_prose(b: Seq<u8>, w: Seq<Seq<char>>) -> bool {
    let lower = count(b, |x: u8| is_lower(x));
    let structural = count(b, |x: u8| is_structural(x));
    let idents = identifiers(b).len();
    ||| 20 * lower > 13 * b.len() && 25 * structural < 2 * b.len() && idents < 3
    ||| idents == 0
    ||| {
        &&& 2 * lower > b.len()
        &&& word_bytes(w) < 6 * w.len()
        &&& 20 * structural < b.len()
        &&& idents < 2
    }
}

/// The zone of a line: 0 for code, 1 for prose.
pub open spec fn zone_of(line: Seq<char>) -> u8 {
    let s = trimmed(line);
    let b = encode_utf8(s);
    if s.len() == 0 || opens_prose(b) {
        1
    } else if b[0] == 0x23 {
        if opens_directive(b) {
            0
        } else {
            1
        }
    } else if reads_as_prose(b, words(s)) {
        1
    } else {
        0
    }
}

/// How many identifiers of at least three bytes there are in `bytes`.
fn count_identifiers(bytes: &[u8]) -> (n: usize)
    ensures
        n == identifiers(bytes@).len(),
{
    let ghost b = bytes@;
    let mut n: usize = 0;
    let mut i: usize = 0;
    while i < bytes.len()
        invariant
            bytes@ == b,
            i <= b.len(),
            n <= i,
            n + identifiers_from(b, i as int).len() == identifiers(b).len(),
        decreases b.len() - i,
    {
        if ident_start(bytes[i]) {
            let start = i;
            i = skip_word(bytes, i + 1);
            if i - start >= 3 {
                n += 1;
            }
        } else {
            i += 1;
        }
    }
    n
}

/// How many bytes the words have together.
fn count_word_bytes(w: &Vec<String>) -> (n: u128)
    ensures
        n == word_bytes(views(w@)),
{
    let mut n: u128 = 0;
    let mut i: usize = 0;
    while i < w.len()
        invariant
            i <= w@.len(),
            n == word_bytes(views(w@).take(i as int)),
            n <= i * usize::MAX,
        decreases w@.len() - i,
    {
        let k: usize = w[i].as_str().as_bytes().len();
        proof {
            assert(views(w@).take(i + 1).drop_last() =~= views(w@).take(i as int));
            assert(n + k <= (i + 1) * usize::MAX) by (nonlinear_arith)
                requires
                    n <= i * usize::MAX,
                    k <= usize::MAX,
            ;
            assert((i + 1) * usize::MAX <= u128::MAX) by (nonlinear_arith)
                requires
                    i + 1 <= usize::MAX,
                    usize::MAX <= u64::MAX,
            ;
        }
        n += k as u128;
        i += 1;
    }
    assert(views(w@).take(i as int) =~= views(w@));
    n
}

/// Classifies a line as code (0) or prose (1).
pub fn line_zone(line: &str) -> (z: u8)
    ensures
        z == zone_of(line@),
{
    let s = trim(line);
    if s.is_empty() {
        return 1;
    }
    let bytes = s.as_bytes();
    let ghost b = encode_utf8(s@);
    proof {
        encode_utf8_first_scalar(s@);
    }
    let len: usize = bytes.len();
    if len >= 2 && bytes[0] == 0x2f && (bytes[1] == 0x2f || bytes[1] == 0x2a) {
        return 1;
    }
    if bytes[0] == 0x2a || bytes[0] == 0x3e {
        return 1;
    }
    if len >= 4 && bytes[0] == 0x3c && bytes[1] == 0x21 && bytes[2] == 0x2d && bytes[3] == 0x2d {
        return 1;
    }
    if bytes[0] == 0x23 {
        if len >= 2 && bytes[1] == 0x21 {
            return 0;
        }
        if len > 2 {
            let x = bytes[1];
            let y = bytes[2];
            if (x == 0x69 && y == 0x6e) || (x == 0x64 && y == 0x65) || (x == 0x69 && y == 0x66) || (x
                == 0x65 && y == 0x6e) || (x == 0x70 && y == 0x72) || (x == 0x65 && y == 0x72) || (x
                == 0x77 && y == 0x61) {
                return 0;
            }
        }
        return 1;
    }
    let mut lower: usize = 0;
    let mut structural: usize = 0;
    let mut i: usize = 0;
    while i < bytes.len()
        invariant
            bytes@ == b,
            i <= b.len(),
            lower <= i,
            structural <= i,
            lower == count(b.take(i as int), |x: u8| is_lower(x)),
            structural == count(b.take(i as int), |x: u8| is_structural(x)),
        decreases b.len() - i,
    {
        let x = bytes[i];
        assert(b.take(i + 1).drop_last() =~= b.take(i as int));
        if 0x61 <= x && x <= 0x7a {
            lower += 1;
        } else if x == 0x7b || x == 0x7d || x == 0x28 || x == 0x29 || x == 0x5b || x == 0x5d || x
            == 0x3c || x == 0x3e || x == 0x3b || x == 0x3a || x == 0x3d || x == 0x7c || x == 0x26
            || x == 0x21 || x == 0x40 || x == 0x23 || x == 0x24 || x == 0x25 || x == 0x5e || x
            == 0x2a || x == 0x2d || x == 0x2b || x == 0x2f || x == 0x3f || x == 0x5c {
            structural += 1;
        }
        i += 1;
    }
    assert(b.take(i as int) =~= b);
    let idents = count_identifiers(bytes);
    let n = len as u128;
    if 20 * (lower as u128) > 13 * n && 25 * (structural as u128) < 2 * n && idents < 3 {
        return 1;
    }
    if idents == 0 {
        return 1;
    }
    let w = words_of(s);
    let total = count_word_bytes(&w);
    if 2 * (lower as u128) > n && total < 6 * (w.len() as u128) && 20 * (structural as u128) < n
        && idents < 2 {
        return 1;
    }
    0
}

// ---------------------------------------------------------------------------------------------
// Laws
// ---------------------------------------------------------------------------------------------
/// Identifiers are made of ASCII letters, digits and underscores, and no digit starts one.
pub proof fn law_identifier_bytes(b: u8)
    ensures
        is_ident_start(b) <==> 'a' as u8 <= b <= 'z' as u8 || 'A' as u8 <= b <= 'Z' as u8 || b
            == '_' as u8,
        is_ident_byte(b) <==> is_ident_start(b) || '0' as u8 <= b <= '9' as u8,
{
}

/// What an identifier is: at least three bytes, the first a letter or an underscore, the others
/// letters, digits or underscores.
pub proof fn law_phrase_shape(b: Seq<u8>, s: int, e: int)
    ensures
        has_phrase_shape(b, s, e) <==> 0 <= s && e <= b.len() && e - s >= 3 && is_ident_start(b[s]) && (
        forall|j: int| s <= j < e ==> is_ident_byte(#[trigger] b[j])),
{
}

/// Where the identifiers of a line are: a run of letters, digits and underscores that something else
/// ends is one where it starts with no digit and has three bytes or more, and what stands behind it
/// has the identifiers that it would have alone. A byte that starts no identifier changes nothing.
pub proof fn law_identifiers_by_run(w: Seq<u8>, c: u8, rest: Seq<u8>)
    requires
        w.len() > 0,
        is_ident_start(w[0]),
        forall|j: int| 0 <= j < w.len() ==> is_ident_byte(#[trigger] w[j]),
        !is_ident_byte(c),
    ensures
        identifiers(Seq::empty()).len() == 0,
        identifiers(w).len() == if w.len() >= 3 {
            1nat
        } else {
            0
        },
        identifiers(w.push(c) + rest).len() == identifiers(w).len() + identifiers(rest).len(),
        identifiers(seq![c] + rest).len() == identifiers(rest).len(),
{
    let n = w.len() as int;
    lemma_run_end_at(w, 1, n);
    assert(identifiers_from(w, n) =~= Seq::<(int, int)>::empty());
    let all = w.push(c) + rest;
    assert forall|j: int| 1 <= j < n implies is_ident_byte(#[trigger] all[j]) by {
        assert(is_ident_byte(w[j]));
    }
    lemma_run_end_at(all, 1, n);
    assert(identifiers_from(all, n) == identifiers_from(all, n + 1));
    lemma_identifiers_shift(all, n + 1, 0);
    assert(all.skip(n + 1) =~= rest);
    let one = seq![c] + rest;
    assert(identifiers_from(one, 0) == identifiers_from(one, 1));
    lemma_identifiers_shift(one, 1, 0);
    assert(one.skip(1) =~= rest);
}

/// A run ends where the first byte stands that is in no identifier.
proof fn lemma_run_end_at(b: Seq<u8>, from: int, to: int)
    requires
        0 <= from <= to <= b.len(),
        forall|j: int| from <= j < to ==> is_ident_byte(#[trigger] b[j]),
        to < b.len() ==> !is_ident_byte(b[to]),
    ensures
        run_end(b, from) == to,
    decreases to - from,
{
    if from < to {
        assert(is_ident_byte(b[from]));
        lemma_run_end_at(b, from + 1, to);
    }
}

/// There are as many identifiers from a place on as in what stands there.
proof fn lemma_identifiers_shift(b: Seq<u8>, from: int, k: int)
    requires
        0 <= from,
        0 <= k,
        from + k <= b.len(),
    ensures
        identifiers_from(b, from + k).len() == identifiers_from(b.skip(from), k).len(),
    decreases b.len() - from - k,
{
    let t = b.skip(from);
    if from + k < b.len() {
        assert(t[k] == b[from + k]);
        if is_ident_start(b[from + k]) {
            let e = run_end(b, from + k + 1);
            lemma_run_end(b, from + k + 1);
            assert forall|j: int| k + 1 <= j < e - from implies is_ident_byte(#[trigger] t[j]) by {
                assert(is_ident_byte(b[from + j]));
            }
            lemma_run_end_at(t, k + 1, e - from);
            lemma_identifiers_shift(b, from, e - from);
        } else {
            lemma_identifiers_shift(b, from, k + 1);
        }
    }
}

/// What makes a use of a name its definition: the name ends before the line does, stands behind
/// nothing that it could be part of or a member of, and only blanks and words part it from an opening
/// bracket of any kind, `=`, `:` or `->`.
pub proof fn law_definition_shape(b: Seq<u8>, start: int, end: int)
    requires
        0 <= start <= end,
    ensures
        defines(b, start, end) <==> end < b.len() && (start == 0 || !is_ident_byte(b[start - 1])
            && b[start - 1] != '.' as u8) && exists|m: int|
            {
                &&& end <= m < b.len()
                &&& forall|j: int|
                    end <= j < m ==> #[trigger] b[j] == ' ' as u8 || b[j] == '\t' as u8 || is_ident_byte(
                        b[j],
                    )
                &&& {
                    ||| #[trigger] b[m] == '(' as u8 || b[m] == '<' as u8 || b[m] == '[' as u8 || b[m]
                        == '{' as u8
                    ||| b[m] == '=' as u8 || b[m] == ':' as u8
                    ||| b[m] == '-' as u8 && m + 1 < b.len() && b[m + 1] == '>' as u8
                }
            },
{
    if end < b.len() {
        let e = words_end(b, end);
        lemma_words_end(b, end);
        if defines(b, start, end) {
            assert(end <= e < b.len());
            assert(b[e] == b[e]);
        }
        if exists|m: int|
            {
                &&& end <= m < b.len()
                &&& forall|j: int|
                    end <= j < m ==> #[trigger] b[j] == ' ' as u8 || b[j] == '\t' as u8 || is_ident_byte(
                        b[j],
                    )
                &&& {
                    ||| #[trigger] b[m] == '(' as u8 || b[m] == '<' as u8 || b[m] == '[' as u8 || b[m]
                        == '{' as u8
                    ||| b[m] == '=' as u8 || b[m] == ':' as u8
                    ||| b[m] == '-' as u8 && m + 1 < b.len() && b[m + 1] == '>' as u8
                }
            } {
            let m = choose|m: int|
                {
                    &&& end <= m < b.len()
                    &&& forall|j: int|
                        end <= j < m ==> #[trigger] b[j] == ' ' as u8 || b[j] == '\t' as u8
                            || is_ident_byte(b[j])
                    &&& {
                        ||| #[trigger] b[m] == '(' as u8 || b[m] == '<' as u8 || b[m] == '[' as u8
                            || b[m] == '{' as u8
                        ||| b[m] == '=' as u8 || b[m] == ':' as u8
                        ||| b[m] == '-' as u8 && m + 1 < b.len() && b[m + 1] == '>' as u8
                    }
                };
            assert(!is_blank(b[m]) && !is_ident_byte(b[m]));
            if e < m {
                assert(b[e] == b[e]);
                assert(false);
            }
            assert(e == m);
        }
    }
}

/// Blanks and words end where something else stands.
proof fn lemma_words_end(b: Seq<u8>, from: int)
    requires
        0 <= from <= b.len(),
    ensures
        from <= words_end(b, from) <= b.len(),
        words_end(b, from) < b.len() ==> !is_blank(b[words_end(b, from)]) && !is_ident_byte(
            b[words_end(b, from)],
        ),
        forall|k: int|
            from <= k < words_end(b, from) ==> is_blank(#[trigger] b[k]) || is_ident_byte(b[k]),
    decreases b.len() - from,
{
    if from < b.len() && (is_blank(b[from]) || is_ident_byte(b[from])) {
        lemma_words_end(b, from + 1);
    }
}

/// A count grows by one with each byte that counts, and only with those.
pub proof fn law_count_is_exact(b: Seq<u8>, x: u8, p: spec_fn(u8) -> bool)
    ensures
        count(Seq::empty(), p) == 0,
        p(x) ==> count(b.push(x), p) == count(b, p) + 1,
        !p(x) ==> count(b.push(x), p) == count(b, p),
{
    assert(b.push(x).drop_last() =~= b);
}

/// The words of a line hold as many bytes as each of them holds, taken together.
pub proof fn law_word_bytes_sum(w: Seq<Seq<char>>, t: Seq<char>)
    ensures
        word_bytes(Seq::empty()) == 0,
        word_bytes(w.push(t)) == word_bytes(w) + encode_utf8(t).len(),
{
    assert(w.push(t).drop_last() =~= w);
}

/// As many bytes as there are in the part of the sequence for which the same holds.
proof fn lemma_count_is_filter(b: Seq<u8>, p: spec_fn(u8) -> bool, q: spec_fn(u8) -> bool)
    requires
        forall|x: u8| #[trigger] p(x) == q(x),
    ensures
        count(b, p) == b.filter(q).len(),
    decreases b.len(),
{
    reveal(Seq::filter);
    if b.len() > 0 {
        lemma_count_is_filter(b.drop_last(), p, q);
        assert(p(b.last()) == q(b.last()));
    }
}

/// The bytes that are lower case letters.
pub open spec fn letters_in(b: Seq<u8>) -> int {
    b.filter(|x: u8| 'a' as u8 <= x <= 'z' as u8).len() as int
}

/// The bytes that programs are full of and prose is not.
pub open spec fn marks_in(b: Seq<u8>) -> int {
    b.filter(|x: u8| "{}()[]<>;:=|&!@#$%^*-+/?\\"@.contains(x as char)).len() as int
}

proof fn lemma_marks(x: u8)
    ensures
        is_structural(x) <==> "{}()[]<>;:=|&!@#$%^*-+/?\\"@.contains(x as char),
{
    reveal_strlit("{}()[]<>;:=|&!@#$%^*-+/?\\");
    let t = "{}()[]<>;:=|&!@#$%^*-+/?\\"@;
    assert(t.len() == 25);
    if is_structural(x) {
        assert(t[0] == 0x7b as char);
        assert(t[1] == 0x7d as char);
        assert(t[2] == 0x28 as char);
        assert(t[3] == 0x29 as char);
        assert(t[4] == 0x5b as char);
        assert(t[5] == 0x5d as char);
        assert(t[6] == 0x3c as char);
        assert(t[7] == 0x3e as char);
        assert(t[8] == 0x3b as char);
        assert(t[9] == 0x3a as char);
        assert(t[10] == 0x3d as char);
        assert(t[11] == 0x7c as char);
        assert(t[12] == 0x26 as char);
        assert(t[13] == 0x21 as char);
        assert(t[14] == 0x40 as char);
        assert(t[15] == 0x23 as char);
        assert(t[16] == 0x24 as char);
        assert(t[17] == 0x25 as char);
        assert(t[18] == 0x5e as char);
        assert(t[19] == 0x2a as char);
        assert(t[20] == 0x2d as char);
        assert(t[21] == 0x2b as char);
        assert(t[22] == 0x2f as char);
        assert(t[23] == 0x3f as char);
        assert(t[24] == 0x5c as char);
    }
}

proof fn lemma_letters_and_marks(b: Seq<u8>)
    ensures
        count(b, |x: u8| is_lower(x)) == letters_in(b),
        count(b, |x: u8| is_structural(x)) == marks_in(b),
{
    lemma_count_is_filter(b, |x: u8| is_lower(x), |x: u8| 'a' as u8 <= x <= 'z' as u8);
    assert forall|x: u8| is_structural(x) == "{}()[]<>;:=|&!@#$%^*-+/?\\"@.contains(
        x as char,
    ) by {
        lemma_marks(x);
    }
    lemma_count_is_filter(
        b,
        |x: u8| is_structural(x),
        |x: u8| "{}()[]<>;:=|&!@#$%^*-+/?\\"@.contains(x as char),
    );
}

/// The line starts with the mark of a comment or of a quotation.
pub open spec fn opens_with_mark(b: Seq<u8>) -> bool {
    ||| seq!['/' as u8, '/' as u8].is_prefix_of(b)
    ||| seq!['/' as u8, '*' as u8].is_prefix_of(b)
    ||| seq!['*' as u8].is_prefix_of(b)
    ||| seq!['>' as u8].is_prefix_of(b)
    ||| seq!['<' as u8, '!' as u8, '-' as u8, '-' as u8].is_prefix_of(b)
}

/// How a line starts can decide its zone: nothing but white space is prose, and so is what starts
/// with the mark of a comment. A line that starts with `#` is code where a preprocessor or a shell
/// would read it, and prose otherwise.
pub proof fn law_zone_by_opening(line: Seq<char>)
    ensures
        trimmed(line).len() == 0 ==> zone_of(line) == 1,
        trimmed(line).len() > 0 && {
            let b = encode_utf8(trimmed(line));
            ||| seq!['/' as u8, '/' as u8].is_prefix_of(b)
            ||| seq!['/' as u8, '*' as u8].is_prefix_of(b)
            ||| seq!['*' as u8].is_prefix_of(b)
            ||| seq!['>' as u8].is_prefix_of(b)
            ||| seq!['<' as u8, '!' as u8, '-' as u8, '-' as u8].is_prefix_of(b)
        } ==> zone_of(line) == 1,
        trimmed(line).len() > 0 && seq!['#' as u8].is_prefix_of(encode_utf8(trimmed(line))) ==> (zone_of(
            line,
        ) == 0 <==> {
            let b = encode_utf8(trimmed(line));
            ||| seq!['#' as u8, '!' as u8].is_prefix_of(b)
            ||| seq!['#' as u8, 'i' as u8, 'n' as u8].is_prefix_of(b)
            ||| seq!['#' as u8, 'd' as u8, 'e' as u8].is_prefix_of(b)
            ||| seq!['#' as u8, 'i' as u8, 'f' as u8].is_prefix_of(b)
            ||| seq!['#' as u8, 'e' as u8, 'n' as u8].is_prefix_of(b)
            ||| seq!['#' as u8, 'p' as u8, 'r' as u8].is_prefix_of(b)
            ||| seq!['#' as u8, 'e' as u8, 'r' as u8].is_prefix_of(b)
            ||| seq!['#' as u8, 'w' as u8, 'a' as u8].is_prefix_of(b)
        }),
        zone_of(line) == 0 || zone_of(line) == 1,
{
    let b = encode_utf8(trimmed(line));
    lemma_opens_with_mark(b);
    assert(b.len() >= 2 ==> b.subrange(0, 2) =~= seq![b[0], b[1]]);
    assert(b.len() >= 3 ==> b.subrange(0, 3) =~= seq![b[0], b[1], b[2]]);
    lemma_two(b, '#' as u8, '!' as u8);
    lemma_three(b, '#' as u8, 'i' as u8, 'n' as u8);
    lemma_three(b, '#' as u8, 'd' as u8, 'e' as u8);
    lemma_three(b, '#' as u8, 'i' as u8, 'f' as u8);
    lemma_three(b, '#' as u8, 'e' as u8, 'n' as u8);
    lemma_three(b, '#' as u8, 'p' as u8, 'r' as u8);
    lemma_three(b, '#' as u8, 'e' as u8, 'r' as u8);
    lemma_three(b, '#' as u8, 'w' as u8, 'a' as u8);
}

/// A line starts with two bytes where its first two are these.
proof fn lemma_two(b: Seq<u8>, x: u8, y: u8)
    ensures
        seq![x, y].is_prefix_of(b) <==> b.len() >= 2 && b[0] == x && b[1] == y,
{
    let s = seq![x, y];
    if b.len() >= 2 && b[0] == x && b[1] == y {
        assert(s =~= b.subrange(0, 2));
    }
    if s.is_prefix_of(b) {
        assert(s[0] == b.subrange(0, 2)[0] && s[1] == b.subrange(0, 2)[1]);
    }
}

/// A line starts with three bytes where its first three are these.
proof fn lemma_three(b: Seq<u8>, x: u8, y: u8, z: u8)
    ensures
        seq![x, y, z].is_prefix_of(b) <==> b.len() >= 3 && b[0] == x && b[1] == y && b[2] == z,
{
    let s = seq![x, y, z];
    if b.len() >= 3 && b[0] == x && b[1] == y && b[2] == z {
        assert(s =~= b.subrange(0, 3));
    }
    if s.is_prefix_of(b) {
        assert(s[0] == b.subrange(0, 3)[0] && s[1] == b.subrange(0, 3)[1] && s[2] == b.subrange(
            0,
            3,
        )[2]);
    }
}

/// The marks of a comment, byte by byte.
proof fn lemma_opens_with_mark(b: Seq<u8>)
    ensures
        opens_with_mark(b) == opens_prose(b),
        seq!['#' as u8].is_prefix_of(b) <==> b.len() >= 1 && b[0] == '#' as u8,
{
    lemma_two(b, '/' as u8, '/' as u8);
    lemma_two(b, '/' as u8, '*' as u8);
    lemma_one(b, '*' as u8);
    lemma_one(b, '>' as u8);
    lemma_one(b, '#' as u8);
    let s = seq!['<' as u8, '!' as u8, '-' as u8, '-' as u8];
    if s.is_prefix_of(b) {
        let t = b.subrange(0, 4);
        assert(s[0] == t[0] && s[1] == t[1] && s[2] == t[2] && s[3] == t[3]);
    }
    if b.len() >= 4 && b[0] == 0x3c && b[1] == 0x21 && b[2] == 0x2d && b[3] == 0x2d {
        assert(s =~= b.subrange(0, 4));
    }
}

/// A line starts with a byte where its first is that byte.
proof fn lemma_one(b: Seq<u8>, x: u8)
    ensures
        seq![x].is_prefix_of(b) <==> b.len() >= 1 && b[0] == x,
{
    let s = seq![x];
    if b.len() >= 1 && b[0] == x {
        assert(s =~= b.subrange(0, 1));
    }
    if s.is_prefix_of(b) {
        assert(s[0] == b.subrange(0, 1)[0]);
    }
}

/// A line whose start decides nothing: it is not empty and opens neither with the mark of a comment
/// nor with `#`.
pub open spec fn is_plain(line: Seq<char>) -> bool {
    &&& trimmed(line).len() > 0
    &&& !opens_with_mark(encode_utf8(trimmed(line)))
    &&& !seq!['#' as u8].is_prefix_of(encode_utf8(trimmed(line)))
}

/// Three identifiers make a plain line code, however many more there are; none makes it prose.
pub proof fn law_identifiers_make_code(line: Seq<char>)
    requires
        trimmed(line).len() > 0,
        ({
            let b = encode_utf8(trimmed(line));
            &&& b[0] != '#' as u8 && b[0] != '*' as u8 && b[0] != '>' as u8
            &&& b[0] == '/' as u8 && b.len() > 1 ==> b[1] != '/' as u8 && b[1] != '*' as u8
            &&& b[0] == '<' as u8 && b.len() > 3 ==> b[1] != '!' as u8 || b[2] != '-' as u8 || b[3]
                != '-' as u8
        }),
    ensures
        identifiers(encode_utf8(trimmed(line))).len() >= 3 ==> zone_of(line) == 0,
        identifiers(encode_utf8(trimmed(line))).len() == 0 ==> zone_of(line) == 1,
{
    let b = encode_utf8(trimmed(line));
    lemma_opens_with_mark(b);
    lemma_not_empty(trimmed(line));
}

/// A text that is not empty has a byte.
proof fn lemma_not_empty(s: Seq<char>)
    requires
        s.len() > 0,
    ensures
        encode_utf8(s).len() > 0,
{
    reveal_with_fuel(encode_utf8, 2);
}

/// Between the two the letters decide. With one or two identifiers a plain line is prose where more
/// than 65 of 100 bytes are lower case letters and fewer than 8 of 100 are marks; with one alone also
/// where more than half are letters, fewer than 5 of 100 are marks and its words are shorter than six
/// bytes on the average. Otherwise it is code.
pub proof fn law_letters_make_prose(line: Seq<char>)
    requires
        trimmed(line).len() > 0,
        ({
            let b = encode_utf8(trimmed(line));
            &&& b[0] != '#' as u8 && b[0] != '*' as u8 && b[0] != '>' as u8
            &&& b[0] == '/' as u8 && b.len() > 1 ==> b[1] != '/' as u8 && b[1] != '*' as u8
            &&& b[0] == '<' as u8 && b.len() > 3 ==> b[1] != '!' as u8 || b[2] != '-' as u8 || b[3]
                != '-' as u8
        }),
        1 <= identifiers(encode_utf8(trimmed(line))).len() <= 2,
    ensures
        zone_of(line) == 1 <==> {
            let b = encode_utf8(trimmed(line));
            let letters = b.filter(|x: u8| 'a' as u8 <= x <= 'z' as u8).len();
            let marks = b.filter(|x: u8| "{}()[]<>;:=|&!@#$%^*-+/?\\"@.contains(x as char)).len();
            ||| 100 * letters > 65 * b.len() && 100 * marks < 8 * b.len()
            ||| {
                &&& identifiers(b).len() == 1
                &&& 100 * letters > 50 * b.len()
                &&& 100 * marks < 5 * b.len()
                &&& word_bytes(words(trimmed(line))) < 6 * words(trimmed(line)).len()
            }
        },
{
    let b = encode_utf8(trimmed(line));
    lemma_opens_with_mark(b);
    lemma_not_empty(trimmed(line));
    lemma_letters_and_marks(b);
}

/// More identifiers never turn code into prose: of two plain lines that are alike in length, letters,
/// marks and words, the one with more identifiers is code where the other is.
pub proof fn law_more_identifiers_stay_code(a: Seq<char>, c: Seq<char>)
    requires
        is_plain(a),
        is_plain(c),
        encode_utf8(trimmed(a)).len() == encode_utf8(trimmed(c)).len(),
        letters_in(encode_utf8(trimmed(a))) == letters_in(encode_utf8(trimmed(c))),
        marks_in(encode_utf8(trimmed(a))) == marks_in(encode_utf8(trimmed(c))),
        words(trimmed(a)).len() == words(trimmed(c)).len(),
        word_bytes(words(trimmed(a))) == word_bytes(words(trimmed(c))),
        identifiers(encode_utf8(trimmed(a))).len() <= identifiers(encode_utf8(trimmed(c))).len(),
    ensures
        zone_of(a) == 0 ==> zone_of(c) == 0,
{
    let n = identifiers(encode_utf8(trimmed(a))).len();
    let m = identifiers(encode_utf8(trimmed(c))).len();
    lemma_opens_with_mark(encode_utf8(trimmed(a)));
    lemma_opens_with_mark(encode_utf8(trimmed(c)));
    lemma_not_empty(trimmed(a));
    lemma_not_empty(trimmed(c));
    law_identifiers_make_code(a);
    law_identifiers_make_code(c);
    if 1 <= n <= 2 {
        law_letters_make_prose(a);
    }
    if 1 <= m <= 2 {
        law_letters_make_prose(c);
    }
    law_zone_by_opening(a);
    law_zone_by_opening(c);
}

/// White space around a line makes no difference to its zone.
pub proof fn law_zone_ignores_margins(lead: Seq<char>, core: Seq<char>, trail: Seq<char>)
    requires
        forall|i: int| 0 <= i < lead.len() ==> is_white(#[trigger] lead[i]),
        forall|i: int| 0 <= i < trail.len() ==> is_white(#[trigger] trail[i]),
        core.len() > 0 ==> !is_white(core[0]) && !is_white(core.last()),
    ensures
        zone_of(lead + core + trail) == zone_of(core),
{
    law_trimming(lead, core, trail);
    law_trimming(Seq::empty(), core, Seq::empty());
    assert(Seq::<char>::empty() + core + Seq::<char>::empty() =~= core);
}

/// The phrases of a text are its identifiers, in order, byte for byte.
pub proof fn law_phrases_are_identifiers(s: Seq<char>, k: int, j: int)
    requires
        0 <= k < identifiers(encode_utf8(s)).len(),
        0 <= j < identifiers(encode_utf8(s))[k].1 - identifiers(encode_utf8(s))[k].0,
    ensures
        phrases(s).len() == identifiers(encode_utf8(s)).len(),
        phrases(s)[k].len() == identifiers(encode_utf8(s))[k].1 - identifiers(encode_utf8(s))[k].0,
        phrases(s)[k][j] as int == encode_utf8(s)[identifiers(encode_utf8(s))[k].0 + j],
{
    lemma_identifiers_from(encode_utf8(s), 0);
    assert(is_identifier(encode_utf8(s), identifiers(encode_utf8(s))[k]));
}

} // verus!
