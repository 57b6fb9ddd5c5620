//! Strings as sequences of characters: the handful of string operations that the rest of the
//! library is written with, each with an exact contract over the character view.

use vstd::prelude::*;
use vstd::utf8::*;

verus! {

broadcast use vstd::seq::group_seq_axioms;

// ---------------------------------------------------------------------------------------------
// Characters
// ---------------------------------------------------------------------------------------------
/// The characters with the Unicode `White_Space` property.
pub open spec fn is_white(c: char) -> bool {
    ||| '\u{9}' <= c <= '\u{d}'
    ||| c == '\u{20}'
    ||| c == '\u{85}'
    ||| c == '\u{a0}'
    ||| c == '\u{1680}'
    ||| '\u{2000}' <= c <= '\u{200a}'
    ||| c == '\u{2028}'
    ||| c == '\u{2029}'
    ||| c == '\u{202f}'
    ||| c == '\u{205f}'
    ||| c == '\u{3000}'
}

/// Whether `c` is white space.
pub fn white(c: char) -> (r: bool)
    ensures
        r == is_white(c),
{
    ('\u{9}' <= c && c <= '\u{d}') || c == '\u{20}' || c == '\u{85}' || c == '\u{a0}' || c
        == '\u{1680}' || ('\u{2000}' <= c && c <= '\u{200a}') || c == '\u{2028}' || c == '\u{2029}'
        || c == '\u{202f}' || c == '\u{205f}' || c == '\u{3000}'
}

// ---------------------------------------------------------------------------------------------
// Between strings and character vectors
// ---------------------------------------------------------------------------------------------
/// `String::push` appends one character to the end of the string.
pub assume_specification[ String::push ](s: &mut String, c: char)
    ensures
        final(s)@ == old(s)@.push(c),
;

/// The characters of `s`, in order.
pub fn chars_of(s: &str) -> (v: Vec<char>)
    ensures
        v@ == s@,
{
    let mut v: Vec<char> = Vec::new();
    for c in it: s.chars()
        invariant
            v@ == it.seq().take(it.index() as int),
            it.seq() == s@,
    {
        v.push(c);
    }
    v
}

/// The character sequences of a sequence of strings.
pub open spec fn views(v: Seq<String>) -> Seq<Seq<char>> {
    v.map_values(|x: String| x@)
}

/// The string that holds the characters `v[from..to]`.
pub fn string_of(v: &[char], from: usize, to: usize) -> (s: String)
    requires
        from <= to <= v@.len(),
    ensures
        s@ == v@.subrange(from as int, to as int),
{
    let mut s = String::new();
    let mut i: usize = from;
    while i < to
        invariant
            from <= i <= to <= v@.len(),
            s@ == v@.subrange(from as int, i as int),
        decreases to - i,
    {
        s.push(v[i]);
        i += 1;
    }
    s
}

/// Two strings with the same bytes have the same characters.
pub proof fn lemma_same_bytes(a: Seq<char>, b: Seq<char>)
    ensures
        encode_utf8(a) == encode_utf8(b) <==> a == b,
{
    encode_utf8_decode_utf8(a);
    encode_utf8_decode_utf8(b);
}

/// Whether two strings are equal.
pub fn str_eq(a: &str, b: &str) -> (r: bool)
    ensures
        r == (a@ == b@),
{
    let x = a.as_bytes();
    let y = b.as_bytes();
    proof {
        lemma_same_bytes(a@, b@);
    }
    if x.len() != y.len() {
        return false;
    }
    let mut i: usize = 0;
    while i < x.len()
        invariant
            i <= x@.len(),
            x@.len() == y@.len(),
            x@ == encode_utf8(a@),
            y@ == encode_utf8(b@),
            x@ == y@ <==> a@ == b@,
            forall|k: int| 0 <= k < i ==> x@[k] == y@[k],
        decreases x@.len() - i,
    {
        if x[i] != y[i] {
            assert(x@[i as int] != y@[i as int]);
            return false;
        }
        i += 1;
    }
    assert(x@ =~= y@);
    true
}

// ---------------------------------------------------------------------------------------------
// Trimming, words and lines
// ---------------------------------------------------------------------------------------------
/// `s` without its leading white space.
pub open spec fn trim_start(s: Seq<char>) -> Seq<char>
    decreases s.len(),
{
    if s.len() > 0 && is_white(s[0]) {
        trim_start(s.drop_first())
    } else {
        s
    }
}

/// `s` without its trailing white space.
pub open spec fn trim_end(s: Seq<char>) -> Seq<char>
    decreases s.len(),
{
    if s.len() > 0 && is_white(s.last()) {
        trim_end(s.drop_last())
    } else {
        s
    }
}

/// `s` without its leading and trailing white space.
pub open spec fn trimmed(s: Seq<char>) -> Seq<char> {
    trim_end(trim_start(s))
}

/// `s` without its leading and trailing white space, as `str::trim`.
pub fn trim(s: &str) -> (t: &str)
    ensures
        t@ == trimmed(s@),
{
    let v = chars_of(s);
    let mut i: usize = 0;
    assert(s@.subrange(0, s@.len() as int) =~= s@);
    while i < v.len() && white(v[i])
        invariant
            i <= v@.len(),
            v@ == s@,
            trim_start(s@) == trim_start(s@.subrange(i as int, s@.len() as int)),
        decreases v@.len() - i,
    {
        assert(s@.subrange(i as int, s@.len() as int).drop_first() =~= s@.subrange(
            i + 1,
            s@.len() as int,
        ));
        i += 1;
    }
    let mut j: usize = v.len();
    assert(s@.subrange(i as int, s@.len() as int) == trim_start(s@));
    while i < j && white(v[j - 1])
        invariant
            i <= j <= v@.len(),
            v@ == s@,
            trimmed(s@) == trim_end(s@.subrange(i as int, j as int)),
        decreases j,
    {
        assert(s@.subrange(i as int, j as int).drop_last() =~= s@.subrange(i as int, j - 1));
        j -= 1;
    }
    s.substring_char(i, j)
}

/// The position of the first white character at or after `from`, or the end.
pub open spec fn word_end(s: Seq<char>, from: int) -> int
    decreases s.len() - from,
{
    if 0 <= from < s.len() && !is_white(s[from]) {
        word_end(s, from + 1)
    } else {
        from
    }
}

/// The maximal runs of characters of `s` from `from` on that are not white, in order.
pub open spec fn words_from(s: Seq<char>, from: int) -> Seq<Seq<char>>
    decreases s.len() - from,
    via words_from_decreases
{
    if 0 <= from < s.len() {
        if is_white(s[from]) {
            words_from(s, from + 1)
        } else {
            let e = word_end(s, from);
            seq![s.subrange(from, e)] + words_from(s, e)
        }
    } else {
        Seq::empty()
    }
}

pub proof fn lemma_word_end(s: Seq<char>, from: int)
    requires
        0 <= from <= s.len(),
    ensures
        from <= word_end(s, from) <= s.len(),
        from < s.len() && !is_white(s[from]) ==> from < word_end(s, from),
        word_end(s, from) < s.len() ==> is_white(s[word_end(s, from)]),
        forall|k: int| from <= k < word_end(s, from) ==> !is_white(s[k]),
    decreases s.len() - from,
{
    if from < s.len() && !is_white(s[from]) {
        lemma_word_end(s, from + 1);
    }
}

#[via_fn]
proof fn words_from_decreases(s: Seq<char>, from: int) {
    if 0 <= from < s.len() {
        lemma_word_end(s, from);
    }
}

/// The words of `s`: its maximal runs of characters that are not white space.
pub open spec fn words(s: Seq<char>) -> Seq<Seq<char>> {
    words_from(s, 0)
}

/// The words of `s`, as `str::split_whitespace` gives them.
pub fn words_of(s: &str) -> (w: Vec<String>)
    ensures
        views(w@) == words(s@),
{
    let v = chars_of(s);
    let mut w: Vec<String> = Vec::new();
    let mut i: usize = 0;
    assert(views(w@) + words_from(s@, 0) =~= words(s@));
    while i < v.len()
        invariant
            i <= v@.len(),
            v@ == s@,
            views(w@) + words_from(s@, i as int) == words(s@),
        decreases v@.len() - i,
    {
        if white(v[i]) {
            i += 1;
        } else {
            let start = i;
            while i < v.len() && !white(v[i])
                invariant
                    start <= i <= v@.len(),
                    v@ == s@,
                    word_end(s@, start as int) == word_end(s@, i as int),
                decreases v@.len() - i,
            {
                i += 1;
            }
            proof {
                lemma_word_end(s@, start as int);
            }
            let ghost before = w@;
            w.push(string_of(v.as_slice(), start, i));
            assert(views(w@) =~= views(before).push(
                s@.subrange(start as int, i as int),
            ));
            assert(views(w@) + words_from(s@, i as int) =~= views(before) + words_from(s@, start as int));
        }
    }
    assert(views(w@) + words_from(s@, i as int) =~= views(w@));
    w
}

/// The position of the first `c` at or after `from`, or the end where there is none.
pub open spec fn index_from(s: Seq<char>, c: char, from: int) -> int
    decreases s.len() - from,
{
    if 0 <= from < s.len() && s[from] != c {
        index_from(s, c, from + 1)
    } else {
        from
    }
}

pub proof fn lemma_index_from(s: Seq<char>, c: char, from: int)
    requires
        0 <= from <= s.len(),
    ensures
        from <= index_from(s, c, from) <= s.len(),
        index_from(s, c, from) < s.len() ==> s[index_from(s, c, from)] == c,
        forall|k: int| from <= k < index_from(s, c, from) ==> s[k] != c,
    decreases s.len() - from,
{
    if from < s.len() && s[from] != c {
        lemma_index_from(s, c, from + 1);
    }
}

/// A line without the carriage return that may end it.
pub open spec fn without_cr(s: Seq<char>) -> Seq<char> {
    if s.len() > 0 && s.last() == '\r' {
        s.drop_last()
    } else {
        s
    }
}

/// The lines of `s` from position `from` on.
pub open spec fn lines_from(s: Seq<char>, from: int) -> Seq<Seq<char>>
    decreases s.len() - from,
    via lines_from_decreases
{
    if 0 <= from < s.len() {
        let e = index_from(s, '\n', from);
        if e < s.len() {
            seq![without_cr(s.subrange(from, e))] + lines_from(s, e + 1)
        } else {
            seq![s.subrange(from, e)]
        }
    } else {
        Seq::empty()
    }
}

#[via_fn]
proof fn lines_from_decreases(s: Seq<char>, from: int) {
    if 0 <= from < s.len() {
        lemma_index_from(s, '\n', from);
    }
}

/// The lines of `s`: each ends at a line feed, or a carriage return and a line feed, which are no
/// part of it; the ending of the last line may be missing.
pub open spec fn lines(s: Seq<char>) -> Seq<Seq<char>> {
    lines_from(s, 0)
}

/// The lines of `s`, as `str::lines` gives them.
pub fn lines_of(s: &str) -> (l: Vec<String>)
    ensures
        views(l@) == lines(s@),
{
    let v = chars_of(s);
    let mut l: Vec<String> = Vec::new();
    let mut i: usize = 0;
    assert(views(l@) + lines_from(s@, 0) =~= lines(s@));
    while i < v.len()
        invariant
            i <= v@.len(),
            v@ == s@,
            views(l@) + lines_from(s@, i as int) == lines(s@),
        decreases v@.len() - i,
    {
        let start = i;
        while i < v.len() && v[i] != '\n'
            invariant
                start <= i <= v@.len(),
                v@ == s@,
                index_from(s@, '\n', start as int) == index_from(s@, '\n', i as int),
            decreases v@.len() - i,
        {
            i += 1;
        }
        let mut end = i;
        if i < v.len() {
            if start < end && v[end - 1] == '\r' {
                assert(s@.subrange(start as int, i as int).drop_last() =~= s@.subrange(
                    start as int,
                    i - 1,
                ));
                end = end - 1;
            }
            i += 1;
        }
        let ghost before = l@;
        l.push(string_of(v.as_slice(), start, end));
        assert(views(l@) =~= views(before).push(
            s@.subrange(start as int, end as int),
        ));
        assert(views(l@) + lines_from(s@, i as int) =~= views(before) + lines_from(s@, start as int));
    }
    assert(views(l@) + lines_from(s@, i as int) =~= views(l@));
    l
}

// ---------------------------------------------------------------------------------------------
// Searching
// ---------------------------------------------------------------------------------------------
/// `needle` occurs in `hay` at position `i`.
pub open spec fn occurs_at<T>(hay: Seq<T>, needle: Seq<T>, i: int) -> bool {
    &&& 0 <= i
    &&& i + needle.len() <= hay.len()
    &&& hay.subrange(i, i + needle.len()) == needle
}

/// `needle` occurs in `hay`.
pub open spec fn occurs<T>(hay: Seq<T>, needle: Seq<T>) -> bool {
    exists|i: int| #[trigger] occurs_at(hay, needle, i)
}

/// Whether `needle` occurs in `hay` at position `i`.
fn matches_at(hay: &[char], needle: &[char], i: usize) -> (r: bool)
    requires
        i + needle@.len() <= hay@.len(),
    ensures
        r == occurs_at(hay@, needle@, i as int),
{
    let n: usize = hay.len();
    let mut k: usize = 0;
    while k < needle.len()
        invariant
            n == hay@.len(),
            k <= needle@.len(),
            i + needle@.len() <= hay@.len(),
            forall|j: int| 0 <= j < k ==> hay@[i + j] == needle@[j],
        decreases needle@.len() - k,
    {
        if hay[i + k] != needle[k] {
            assert(hay@.subrange(i as int, i + needle@.len())[k as int] != needle@[k as int]);
            return false;
        }
        k += 1;
    }
    assert(hay@.subrange(i as int, i + needle@.len()) =~= needle@);
    true
}

/// Whether `needle` occurs in `hay`, as `str::contains`.
pub fn contains(hay: &str, needle: &str) -> (r: bool)
    ensures
        r == occurs(hay@, needle@),
{
    let h = chars_of(hay);
    let n = chars_of(needle);
    if n.len() > h.len() {
        return false;
    }
    let last: usize = h.len() - n.len();
    let mut i: usize = 0;
    while i < last
        invariant
            h@ == hay@,
            n@ == needle@,
            last + n@.len() == h@.len(),
            i <= last,
            forall|j: int| 0 <= j < i ==> !#[trigger] occurs_at(hay@, needle@, j),
        decreases last - i,
    {
        if matches_at(h.as_slice(), n.as_slice(), i) {
            return true;
        }
        i += 1;
    }
    matches_at(h.as_slice(), n.as_slice(), last)
}

/// Whether `s` starts with `p`, as `str::starts_with`.
pub fn starts_with(s: &str, p: &str) -> (r: bool)
    ensures
        r == p@.is_prefix_of(s@),
{
    let v = chars_of(s);
    let w = chars_of(p);
    if w.len() > v.len() {
        return false;
    }
    let r = matches_at(v.as_slice(), w.as_slice(), 0);
    assert(0 + w@.len() == w@.len());
    r
}

/// Whether `s` ends with `p`, as `str::ends_with`.
pub fn ends_with(s: &str, p: &str) -> (r: bool)
    ensures
        r == p@.is_suffix_of(s@),
{
    let v = chars_of(s);
    let w = chars_of(p);
    if w.len() > v.len() {
        return false;
    }
    let at: usize = v.len() - w.len();
    let r = matches_at(v.as_slice(), w.as_slice(), at);
    assert(at + w@.len() == v@.len());
    r
}

/// Whether `list` holds the string `s`.
pub fn contains_string(list: &Vec<String>, s: &str) -> (r: bool)
    ensures
        r == views(list@).contains(s@),
{
    let mut i: usize = 0;
    while i < list.len()
        invariant
            i <= list@.len(),
            forall|k: int| 0 <= k < i ==> (#[trigger] list@[k])@ != s@,
        decreases list@.len() - i,
    {
        if str_eq(list[i].as_str(), s) {
            assert(views(list@)[i as int] == s@);
            return true;
        }
        i += 1;
    }
    assert forall|k: int| 0 <= k < views(list@).len() implies views(list@)[k] != s@ by {
        assert(list@[k]@ != s@);
    }
    false
}

/// The position of the last `c` in `s`, or -1 where there is none.
pub open spec fn last_index(s: Seq<char>, c: char) -> int
    decreases s.len(),
{
    if s.len() == 0 {
        -1
    } else if s.last() == c {
        s.len() - 1
    } else {
        last_index(s.drop_last(), c)
    }
}

/// What `s` holds before its last `c`, if it holds a `c`.
pub fn before_last(s: &str, c: char) -> (r: Option<String>)
    ensures
        match r {
            Some(t) => last_index(s@, c) >= 0 && t@ == s@.take(last_index(s@, c)),
            None => last_index(s@, c) == -1,
        },
{
    let v = chars_of(s);
    let mut i: usize = v.len();
    assert(s@.take(i as int) =~= s@);
    while i > 0
        invariant
            i <= v@.len(),
            v@ == s@,
            last_index(s@, c) == last_index(s@.take(i as int), c),
        decreases i,
    {
        assert(s@.take(i as int).drop_last() =~= s@.take(i - 1));
        if v[i - 1] == c {
            return Some(string_of(v.as_slice(), 0, i - 1));
        }
        i -= 1;
    }
    None
}

/// What `s` holds behind its last `c`, or all of it.
pub fn after_last(s: &str, c: char) -> (r: String)
    ensures
        r@ == s@.skip(last_index(s@, c) + 1),
{
    let v = chars_of(s);
    let mut i: usize = v.len();
    assert(s@.take(i as int) =~= s@);
    while i > 0
        invariant
            i <= v@.len(),
            v@ == s@,
            last_index(s@, c) == last_index(s@.take(i as int), c),
        decreases i,
    {
        assert(s@.take(i as int).drop_last() =~= s@.take(i - 1));
        if v[i - 1] == c {
            return string_of(v.as_slice(), i, v.len());
        }
        i -= 1;
    }
    string_of(v.as_slice(), 0, v.len())
}

/// `s` with every `from` replaced by `to`.
pub open spec fn with_char(s: Seq<char>, from: char, to: char) -> Seq<char> {
    s.map_values(
        |c: char|
            if c == from {
                to
            } else {
                c
            },
    )
}

/// `s` with every `from` replaced by `to`, as `str::replace` on characters.
pub fn replace_char(s: &str, from: char, to: char) -> (r: String)
    ensures
        r@ == with_char(s@, from, to),
{
    let v = chars_of(s);
    let mut r = String::new();
    let mut i: usize = 0;
    while i < v.len()
        invariant
            i <= v@.len(),
            v@ == s@,
            r@ == with_char(s@.take(i as int), from, to),
        decreases v@.len() - i,
    {
        let c: char = v[i];
        r.push(
            if c == from {
                to
            } else {
                c
            },
        );
        assert(with_char(s@.take(i + 1), from, to) =~= r@);
        i += 1;
    }
    assert(s@.take(i as int) =~= s@);
    r
}

/// `s` with the characters of `t` behind it.
pub fn append(s: &mut String, t: &str)
    ensures
        final(s)@ == old(s)@ + t@,
{
    let v = chars_of(t);
    let mut i: usize = 0;
    while i < v.len()
        invariant
            i <= v@.len(),
            v@ == t@,
            s@ == old(s)@ + t@.take(i as int),
        decreases v@.len() - i,
    {
        s.push(v[i]);
        i += 1;
    }
    assert(t@.take(i as int) =~= t@);
}

/// The strings `a` and `b`, one behind the other.
pub fn joined_text(a: &str, b: &str) -> (r: String)
    ensures
        r@ == a@ + b@,
{
    let mut r = a.to_owned();
    append(&mut r, b);
    r
}

// ---------------------------------------------------------------------------------------------
// Lowercase
// ---------------------------------------------------------------------------------------------
/// An ASCII capital letter becomes the small one; any other character stays.
pub open spec fn ascii_lower(c: char) -> char {
    if 'A' <= c <= 'Z' {
        (c as u32 + 32) as char
    } else {
        c
    }
}

/// The lowercase form of a string, by the Unicode lowercase mapping.
pub uninterp spec fn lowercase(s: Seq<char>) -> Seq<char>;

/// `str::to_lowercase` maps a string to its lowercase form, which depends on its characters alone.
/// On a string of ASCII characters it maps the capital letters to the small ones and keeps the
/// rest, character by character.
#[verifier::external_body]
pub(crate) fn to_lowercase(s: &str) -> (r: String)
    ensures
        r@ == lowercase(s@),
        is_ascii_chars(s@) ==> r@ == s@.map_values(|c: char| ascii_lower(c)),
{
    s.to_lowercase()
}

// ---------------------------------------------------------------------------------------------
// Laws
// ---------------------------------------------------------------------------------------------
/// A text holds another exactly where the characters of the other stand in it one behind the other.
pub proof fn law_occurs_is_found(hay: Seq<char>, needle: Seq<char>)
    ensures
        occurs(hay, needle) <==> exists|before: Seq<char>, behind: Seq<char>|
            hay == #[trigger] (before + needle + behind),
{
    if occurs(hay, needle) {
        let i = choose|i: int| #[trigger] occurs_at(hay, needle, i);
        let before = hay.take(i);
        let behind = hay.skip(i + needle.len());
        assert(hay =~= before + needle + behind);
    }
    if exists|before: Seq<char>, behind: Seq<char>| hay == #[trigger] (before + needle + behind) {
        let (before, behind) = choose|before: Seq<char>, behind: Seq<char>|
            hay == #[trigger] (before + needle + behind);
        let i = before.len() as int;
        assert(hay.subrange(i, i + needle.len()) =~= needle);
        assert(occurs_at(hay, needle, i));
    }
}

/// Replacing a character leaves the length and every other character, and puts the new one exactly
/// where the old one stood.
pub proof fn law_replacing_is_local(s: Seq<char>, from: char, to: char)
    ensures
        with_char(s, from, to).len() == s.len(),
        forall|i: int|
            0 <= i < s.len() && s[i] == from ==> #[trigger] with_char(s, from, to)[i] == to,
        forall|i: int|
            0 <= i < s.len() && s[i] != from ==> #[trigger] with_char(s, from, to)[i] == s[i],
{
}

/// A text is parted at the last place of a character: behind it the character does not occur. Where
/// it does not occur at all there is no such place.
pub proof fn law_last_index_parts(before: Seq<char>, c: char, behind: Seq<char>)
    requires
        !behind.contains(c),
    ensures
        last_index(before.push(c) + behind, c) == before.len(),
        last_index(behind, c) == -1,
    decreases behind.len(),
{
    let s = before.push(c) + behind;
    if behind.len() == 0 {
        assert(s =~= before.push(c));
    } else {
        let short = behind.drop_last();
        assert forall|i: int| 0 <= i < short.len() implies short[i] != c by {
            assert(behind.contains(behind[i]));
        }
        assert(behind.contains(behind.last()));
        law_last_index_parts(before, c, short);
        assert(s.drop_last() =~= before.push(c) + short);
    }
}

/// Trimming takes white space off both ends and nothing else: what is left neither starts nor ends
/// with white space, and white space around a text makes no difference.
pub proof fn law_trimming(lead: Seq<char>, core: Seq<char>, trail: Seq<char>)
    requires
        forall|i: int| 0 <= i < lead.len() ==> is_white(#[trigger] lead[i]),
        forall|i: int| 0 <= i < trail.len() ==> is_white(#[trigger] trail[i]),
        core.len() > 0 ==> !is_white(core[0]) && !is_white(core.last()),
    ensures
        trimmed(lead + core + trail) == core,
{
    lemma_trim_lead(lead, core + trail);
    assert(lead + core + trail =~= lead + (core + trail));
    if core.len() > 0 {
        assert(trim_start(core + trail) == core + trail);
        lemma_trim_trail(core, trail);
    } else {
        assert(core + trail =~= trail);
        assert(trail =~= trail + Seq::<char>::empty());
        lemma_trim_lead(trail, Seq::empty());
        assert(core =~= Seq::<char>::empty());
    }
}

/// White space before a text is trimmed.
proof fn lemma_trim_lead(lead: Seq<char>, rest: Seq<char>)
    requires
        forall|i: int| 0 <= i < lead.len() ==> is_white(#[trigger] lead[i]),
    ensures
        trim_start(lead + rest) == trim_start(rest),
    decreases lead.len(),
{
    if lead.len() == 0 {
        assert(lead + rest =~= rest);
    } else {
        let short = lead.drop_first();
        assert forall|i: int| 0 <= i < short.len() implies is_white(#[trigger] short[i]) by {
            assert(is_white(lead[i + 1]));
        }
        lemma_trim_lead(short, rest);
        assert((lead + rest).drop_first() =~= short + rest);
        assert(is_white(lead[0]));
    }
}

/// White space behind a text is trimmed.
proof fn lemma_trim_trail(core: Seq<char>, trail: Seq<char>)
    requires
        forall|i: int| 0 <= i < trail.len() ==> is_white(#[trigger] trail[i]),
        core.len() > 0,
        !is_white(core.last()),
    ensures
        trim_end(core + trail) == core,
    decreases trail.len(),
{
    if trail.len() == 0 {
        assert(core + trail =~= core);
    } else {
        let short = trail.drop_last();
        assert forall|i: int| 0 <= i < short.len() implies is_white(#[trigger] short[i]) by {
            assert(is_white(trail[i]));
        }
        lemma_trim_trail(core, short);
        assert((core + trail).drop_last() =~= core + short);
        assert(is_white(trail[trail.len() - 1]));
    }
}

/// How words come about: white space before a text makes no difference, a text without white space
/// is one word, and a white character ends a word.
pub proof fn law_words(w: Seq<char>, c: char, rest: Seq<char>)
    requires
        w.len() > 0,
        forall|i: int| 0 <= i < w.len() ==> !is_white(#[trigger] w[i]),
        is_white(c),
    ensures
        words(Seq::empty()).len() == 0,
        words(w) == seq![w],
        words(seq![c] + rest) == words(rest),
        words(w.push(c) + rest) == seq![w] + words(rest),
{
    let one = seq![c] + rest;
    lemma_words_skip(one, 1);
    assert(one.skip(1) =~= rest);
    assert(words(one) == words_from(one, 1));
    lemma_word_end_at(w, 0, w.len() as int);
    assert(w.subrange(0, w.len() as int) =~= w);
    assert(words_from(w, w.len() as int) =~= Seq::<Seq<char>>::empty());
    let all = w.push(c) + rest;
    let n = w.len() as int;
    assert forall|i: int| 0 <= i < n implies !is_white(#[trigger] all[i]) by {
        assert(!is_white(w[i]));
    }
    lemma_word_end_at(all, 0, n);
    assert(all.subrange(0, n) =~= w);
    assert(words(all) == seq![w] + words_from(all, n));
    assert(words_from(all, n) == words_from(all, n + 1));
    lemma_words_skip(all, n + 1);
    assert(all.skip(n + 1) =~= rest);
    assert(words(w) =~= seq![w]);
}

/// A word ends where the first white character stands.
proof fn lemma_word_end_at(s: Seq<char>, from: int, to: int)
    requires
        0 <= from <= to <= s.len(),
        forall|i: int| from <= i < to ==> !is_white(#[trigger] s[i]),
        to < s.len() ==> is_white(s[to]),
    ensures
        word_end(s, from) == to,
    decreases to - from,
{
    if from < to {
        assert(!is_white(s[from]));
        lemma_word_end_at(s, from + 1, to);
    }
}

/// The words from a place on are those of what stands there.
proof fn lemma_words_skip(s: Seq<char>, from: int)
    requires
        0 <= from <= s.len(),
    ensures
        words_from(s, from) == words(s.skip(from)),
{
    lemma_words_shift(s, from, 0);
}

proof fn lemma_words_shift(s: Seq<char>, from: int, k: int)
    requires
        0 <= from,
        0 <= k,
        from + k <= s.len(),
    ensures
        words_from(s, from + k) == words_from(s.skip(from), k),
    decreases s.len() - from - k,
{
    let t = s.skip(from);
    if from + k < s.len() {
        assert(t[k] == s[from + k]);
        if is_white(s[from + k]) {
            lemma_words_shift(s, from, k + 1);
        } else {
            let e = word_end(s, from + k);
            lemma_word_end(s, from + k);
            assert forall|i: int| k <= i < e - from implies !is_white(#[trigger] t[i]) by {
                assert(!is_white(s[from + i]));
            }
            lemma_word_end_at(t, k, e - from);
            lemma_words_shift(s, from, e - from);
            assert(s.subrange(from + k, e) =~= t.subrange(k, e - from));
        }
    }
}

/// How lines come about: an empty text has none, a text without a line feed is one line, and a line
/// feed, with the carriage return that may stand before it, ends a line.
pub proof fn law_lines(l: Seq<char>, rest: Seq<char>)
    requires
        !l.contains('\n'),
    ensures
        lines(Seq::empty()).len() == 0,
        l.len() > 0 ==> lines(l) == seq![l],
        l.len() == 0 || l.last() != '\r' ==> lines(l.push('\n') + rest) == seq![l] + lines(rest),
        lines(l.push('\r').push('\n') + rest) == seq![l] + lines(rest),
{
    if l.len() > 0 {
        lemma_index_at(l, 0, l.len() as int);
        assert(l.subrange(0, l.len() as int) =~= l);
    }
    if l.len() == 0 || l.last() != '\r' {
        lemma_first_line(l, rest);
    }
    let r = l.push('\r');
    assert forall|i: int| 0 <= i < r.len() implies r[i] != '\n' by {
        if i < l.len() {
            assert(l.contains(l[i]));
        }
    }
    lemma_first_line(r, rest);
    assert(r.drop_last() =~= l);
}

/// The first line of a text with a line feed.
proof fn lemma_first_line(l: Seq<char>, rest: Seq<char>)
    requires
        !l.contains('\n'),
    ensures
        lines(l.push('\n') + rest) == seq![without_cr(l)] + lines(rest),
{
    let s = l.push('\n') + rest;
    let n = l.len() as int;
    assert forall|i: int| 0 <= i < n implies s[i] != '\n' by {
        assert(l.contains(l[i]));
    }
    lemma_index_at(s, 0, n);
    assert(s.subrange(0, n) =~= l);
    lemma_lines_shift(s, n + 1, 0);
    assert(s.skip(n + 1) =~= rest);
}

/// A character is first found where it first stands.
proof fn lemma_index_at(s: Seq<char>, from: int, to: int)
    requires
        0 <= from <= to <= s.len(),
        forall|i: int| from <= i < to ==> s[i] != '\n',
        to < s.len() ==> s[to] == '\n',
    ensures
        index_from(s, '\n', from) == to,
    decreases to - from,
{
    if from < to {
        lemma_index_at(s, from + 1, to);
    }
}

/// The lines from a place on are those of what stands there.
proof fn lemma_lines_shift(s: Seq<char>, from: int, k: int)
    requires
        0 <= from,
        0 <= k,
        from + k <= s.len(),
    ensures
        lines_from(s, from + k) == lines_from(s.skip(from), k),
    decreases s.len() - from - k,
{
    let t = s.skip(from);
    if from + k < s.len() {
        let e = index_from(s, '\n', from + k);
        lemma_index_from(s, '\n', from + k);
        assert forall|i: int| k <= i < e - from implies t[i] != '\n' by {
            assert(s[from + i] != '\n');
        }
        lemma_index_at(t, k, e - from);
        assert(s.subrange(from + k, e) =~= t.subrange(k, e - from));
        if e < s.len() {
            lemma_lines_shift(s, from, e + 1 - from);
        }
    }
}

/// The last place of a character holds it, and nothing behind it does; there is none exactly where
/// the character does not occur.
pub proof fn lemma_last_index(s: Seq<char>, c: char)
    ensures
        -1 <= last_index(s, c) < s.len(),
        last_index(s, c) >= 0 ==> s[last_index(s, c)] == c,
        forall|i: int| last_index(s, c) < i < s.len() ==> s[i] != c,
    decreases s.len(),
{
    if s.len() > 0 && s.last() != c {
        let t = s.drop_last();
        lemma_last_index(t, c);
        assert forall|i: int| last_index(s, c) < i < s.len() implies s[i] != c by {
            if i < t.len() {
                assert(t[i] != c);
            }
        }
    }
}

} // verus!
