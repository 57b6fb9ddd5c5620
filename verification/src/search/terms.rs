//! The terms that a query is searched by: those that stand in it, and variants of them.

use vstd::prelude::*;
use vstd::utf8::*;

use crate::text::{
    append, chars_of, contains_string, ends_with, lowercase, str_eq, string_of, to_lowercase, views,
};
use crate::zone::{extract_phrases, phrases};

verus! {

broadcast use vstd::seq::group_seq_axioms;

// ---------------------------------------------------------------------------------------------
// Lists without repetition
// ---------------------------------------------------------------------------------------------
/// `s`, with `x` behind it unless it is there already.
pub open spec fn push_new(s: Seq<Seq<char>>, x: Seq<char>) -> Seq<Seq<char>> {
    if s.contains(x) {
        s
    } else {
        s.push(x)
    }
}

/// `s`, with each of `xs` behind it that is not there already.
pub open spec fn push_all(s: Seq<Seq<char>>, xs: Seq<Seq<char>>) -> Seq<Seq<char>>
    decreases xs.len(),
{
    if xs.len() == 0 {
        s
    } else {
        push_new(push_all(s, xs.drop_last()), xs.last())
    }
}

/// Adds a term unless it is there already.
fn add_term(list: &mut Vec<String>, term: String)
    ensures
        views(final(list)@) == push_new(views(old(list)@), term@),
{
    if !contains_string(list, term.as_str()) {
        let ghost before = list@;
        list.push(term);
        assert(views(list@) =~= views(before).push(term@));
    }
}

/// Adding first some terms and then others is adding all of them.
proof fn lemma_push_all_add(s: Seq<Seq<char>>, a: Seq<Seq<char>>, b: Seq<Seq<char>>)
    ensures
        push_all(s, a + b) == push_all(push_all(s, a), b),
    decreases b.len(),
{
    if b.len() == 0 {
        assert(a + b =~= a);
    } else {
        assert((a + b).drop_last() =~= a + b.drop_last());
        lemma_push_all_add(s, a, b.drop_last());
    }
}

// ---------------------------------------------------------------------------------------------
// Variants of a term
// ---------------------------------------------------------------------------------------------
/// `t` without its last `n` characters, where it ends with `suffix` and has more than `over` bytes.
pub open spec fn stem(t: Seq<char>, suffix: Seq<char>, n: int, over: int) -> Seq<Seq<char>> {
    if suffix.is_suffix_of(t) && encode_utf8(t).len() > over {
        seq![t.take(t.len() - n)]
    } else {
        Seq::empty()
    }
}

/// The stems of a term: without `ing`, or else without a plural `s`, without `ed` and without
/// `tion`, as far as it ends so and enough is left.
pub open spec fn stems(t: Seq<char>) -> Seq<Seq<char>> {
    let first = if "ing"@.is_suffix_of(t) && encode_utf8(t).len() > 4 {
        stem(t, "ing"@, 3, 4)
    } else {
        stem(t, "s"@, 1, 3)
    };
    first + stem(t, "ed"@, 2, 4) + stem(t, "tion"@, 4, 5)
}

/// The underscore and the hyphen, which join words.
pub open spec fn is_joint(c: char) -> bool {
    c == '_' || c == '-'
}

/// The first joint of `t` at or after `from`, or the end.
pub open spec fn part_end(t: Seq<char>, from: int) -> int
    decreases t.len() - from,
{
    if 0 <= from < t.len() && !is_joint(t[from]) {
        part_end(t, from + 1)
    } else {
        from
    }
}

/// The words that joints part `t` into from `from` on, without those of under 3 bytes.
pub open spec fn parts_from(t: Seq<char>, from: int) -> Seq<Seq<char>>
    decreases t.len() - from,
    via parts_from_decreases
{
    if 0 <= from <= t.len() {
        let e = part_end(t, from);
        let w = t.subrange(from, e);
        let here: Seq<Seq<char>> = if encode_utf8(w).len() >= 3 {
            seq![w]
        } else {
            Seq::empty()
        };
        if e < t.len() {
            here + parts_from(t, e + 1)
        } else {
            here
        }
    } else {
        Seq::empty()
    }
}

proof fn lemma_part_end(t: Seq<char>, from: int)
    requires
        0 <= from <= t.len(),
    ensures
        from <= part_end(t, from) <= t.len(),
    decreases t.len() - from,
{
    if from < t.len() && !is_joint(t[from]) {
        lemma_part_end(t, from + 1);
    }
}

#[via_fn]
proof fn parts_from_decreases(t: Seq<char>, from: int) {
    if 0 <= from <= t.len() {
        lemma_part_end(t, from);
    }
}

/// Each of the words joined with the next by an underscore.
pub open spec fn joined(w: Seq<Seq<char>>) -> Seq<Seq<char>> {
    Seq::new(
        if w.len() > 0 {
            (w.len() - 1) as nat
        } else {
            0
        },
        |i: int| w[i] + "_"@ + w[i + 1],
    )
}

/// `t` has a joint.
pub open spec fn has_joint(t: Seq<char>) -> bool {
    exists|i: int| 0 <= i < t.len() && is_joint(#[trigger] t[i])
}

/// The words of a term that joints hold together, and each two neighbours of them.
pub open spec fn sub_words(t: Seq<char>) -> Seq<Seq<char>> {
    if has_joint(t) {
        parts_from(t, 0) + joined(parts_from(t, 0))
    } else {
        Seq::empty()
    }
}

/// The variants of a term with the lowercase form `t`: that form unless the index knows the term, its
/// stems, and its words unless the index knows the term.
pub open spec fn variants(t: Seq<char>, known: bool) -> Seq<Seq<char>> {
    if known {
        stems(t)
    } else {
        seq![t] + stems(t) + sub_words(t)
    }
}

/// Adds the stem of a term, if it has it.
fn add_stem(list: &mut Vec<String>, term: &str, suffix: &str, n: usize, over: usize) -> (r: bool)
    requires
        suffix@.len() == n,
    ensures
        views(final(list)@) == push_all(
            views(old(list)@),
            stem(term@, suffix@, n as int, over as int),
        ),
        r == (suffix@.is_suffix_of(term@) && encode_utf8(term@).len() > over),
{
    let r = ends_with(term, suffix) && term.as_bytes().len() > over;
    let ghost s = views(list@);
    let ghost st = stem(term@, suffix@, n as int, over as int);
    if r {
        let v = chars_of(term);
        let w = string_of(v.as_slice(), 0, v.len() - n);
        assert(w@ =~= term@.take(term@.len() - n));
        add_term(list, w);
        assert(st.drop_last() =~= Seq::<Seq<char>>::empty());
        assert(push_all(s, st.drop_last()) == s);
    }
    r
}

/// Adds the stems of a term.
fn add_stems(list: &mut Vec<String>, t: &str)
    ensures
        views(final(list)@) == push_all(views(old(list)@), stems(t@)),
{
    proof {
        reveal_strlit("ing");
        reveal_strlit("s");
        reveal_strlit("ed");
        reveal_strlit("tion");
    }
    let ghost s = views(list@);
    let ghost first = if "ing"@.is_suffix_of(t@) && encode_utf8(t@).len() > 4 {
        stem(t@, "ing"@, 3, 4)
    } else {
        stem(t@, "s"@, 1, 3)
    };
    let ing = add_stem(list, t, "ing", 3, 4);
    if !ing {
        assert(push_all(s, stem(t@, "ing"@, 3, 4)) == s);
        add_stem(list, t, "s", 1, 3);
    }
    assert(views(list@) == push_all(s, first));
    add_stem(list, t, "ed", 2, 4);
    add_stem(list, t, "tion", 4, 5);
    proof {
        lemma_push_all_add(s, first, stem(t@, "ed"@, 2, 4));
        lemma_push_all_add(s, first + stem(t@, "ed"@, 2, 4), stem(t@, "tion"@, 4, 5));
    }
}

/// Whether a term has a joint.
fn contains_joint(v: &Vec<char>) -> (r: bool)
    ensures
        r == has_joint(v@),
{
    let mut i: usize = 0;
    while i < v.len()
        invariant
            i <= v@.len(),
            forall|k: int| 0 <= k < i ==> !is_joint(#[trigger] v@[k]),
        decreases v@.len() - i,
    {
        if v[i] == '_' || v[i] == '-' {
            assert(is_joint(v@[i as int]));
            return true;
        }
        i += 1;
    }
    false
}

/// The words that joints part a term into, without those of under 3 bytes.
fn parts(v: &Vec<char>) -> (r: Vec<String>)
    ensures
        views(r@) == parts_from(v@, 0),
{
    let mut r: Vec<String> = Vec::new();
    let ghost all = parts_from(v@, 0);
    let mut from: usize = 0;
    let mut more = true;
    assert(views(r@) + all =~= all);
    while more
        invariant
            from <= v@.len(),
            more ==> views(r@) + parts_from(v@, from as int) == all,
            !more ==> views(r@) == all,
        decreases v@.len() - from + (if more {
            1int
        } else {
            0
        }),
    {
        let mut e: usize = from;
        while e < v.len() && v[e] != '_' && v[e] != '-'
            invariant
                from <= e <= v@.len(),
                part_end(v@, from as int) == part_end(v@, e as int),
            decreases v@.len() - e,
        {
            e += 1;
        }
        let w = string_of(v.as_slice(), from, e);
        let ghost before = r@;
        if w.as_str().as_bytes().len() >= 3 {
            r.push(w);
            assert(views(r@) =~= views(before).push(v@.subrange(from as int, e as int)));
        }
        if e < v.len() {
            assert(views(r@) + parts_from(v@, e + 1) =~= views(before) + parts_from(
                v@,
                from as int,
            ));
            from = e + 1;
        } else {
            assert(views(r@) =~= views(before) + parts_from(v@, from as int));
            more = false;
        }
    }
    r
}

/// Adds the words of a term.
fn add_sub_words(list: &mut Vec<String>, t: &str)
    ensures
        views(final(list)@) == push_all(views(old(list)@), sub_words(t@)),
{
    let v = chars_of(t);
    if !contains_joint(&v) {
        return ;
    }
    let ghost s = views(list@);
    let sub = parts(&v);
    let ghost w = views(sub@);
    let mut i: usize = 0;
    while i < sub.len()
        invariant
            i <= sub@.len(),
            w == views(sub@),
            views(list@) == push_all(s, w.take(i as int)),
        decreases sub@.len() - i,
    {
        assert(w.take(i + 1).drop_last() =~= w.take(i as int));
        add_term(list, sub[i].clone());
        i += 1;
    }
    assert(w.take(i as int) =~= w);
    let ghost j = joined(w);
    let ghost s1 = views(list@);
    let n: usize = sub.len();
    let mut k: usize = 0;
    while n - k > 1
        invariant
            k <= n,
            n == sub@.len(),
            n > 0 ==> k < n,
            w == views(sub@),
            j == joined(w),
            views(list@) == push_all(s1, j.take(k as int)),
        decreases sub@.len() - k,
    {
        assert(j.take(k + 1).drop_last() =~= j.take(k as int));
        let mut x = sub[k].clone();
        append(&mut x, "_");
        append(&mut x, sub[k + 1].as_str());
        assert(x@ == j[k as int]);
        add_term(list, x);
        k += 1;
    }
    proof {
        assert(j.take(k as int) =~= j);
        lemma_push_all_add(s, w, j);
    }
}

// ---------------------------------------------------------------------------------------------
// The terms of a query
// ---------------------------------------------------------------------------------------------
/// The largest number of terms of a query that are looked at.
pub const MAX_TERMS: usize = 100;

/// The first 100 phrases of a query.
pub open spec fn terms_of(query: Seq<char>) -> Seq<Seq<char>> {
    let p = phrases(query);
    if p.len() <= MAX_TERMS {
        p
    } else {
        p.take(MAX_TERMS as int)
    }
}

/// The terms of a query, and whether there were more than are looked at.
pub fn query_terms(query: &str) -> (r: (Vec<String>, bool))
    ensures
        views(r.0@) == terms_of(query@),
        r.1 == (phrases(query@).len() > MAX_TERMS),
{
    let mut v = extract_phrases(query);
    let ghost all = views(v@);
    if v.len() > MAX_TERMS {
        v.truncate(MAX_TERMS);
        assert(views(v@) =~= all.take(MAX_TERMS as int));
        (v, true)
    } else {
        (v, false)
    }
}

/// The lowercase forms of terms.
pub open spec fn lowered(terms: Seq<Seq<char>>) -> Seq<Seq<char>> {
    terms.map_values(|t: Seq<char>| lowercase(t))
}

/// The lowercase forms of terms.
pub(crate) fn lower_all(terms: &Vec<String>) -> (r: Vec<String>)
    ensures
        views(r@) == lowered(views(terms@)),
{
    let mut r: Vec<String> = Vec::new();
    let ghost all = lowered(views(terms@));
    let mut i: usize = 0;
    while i < terms.len()
        invariant
            i <= terms@.len(),
            all == lowered(views(terms@)),
            views(r@) == all.take(i as int),
        decreases terms@.len() - i,
    {
        let ghost before = r@;
        assert(all[i as int] == lowercase(terms@[i as int]@));
        r.push(to_lowercase(terms[i].as_str()));
        assert(views(r@) =~= views(before).push(all[i as int]));
        assert(views(r@) =~= all.take(i + 1));
        i += 1;
    }
    assert(all.take(i as int) =~= all);
    r
}

/// Whether the index knows the term with the lowercase form `t`: the answer for the last of the
/// terms with that form.
pub open spec fn is_known(lower: Seq<Seq<char>>, known: Seq<bool>, t: Seq<char>) -> bool
    decreases lower.len(),
{
    if lower.len() == 0 {
        false
    } else if lower.last() == t {
        known[lower.len() - 1]
    } else {
        is_known(lower.drop_last(), known, t)
    }
}

/// The terms, whose lowercase forms are `lower`, and the variants of the first `n` of them, without
/// repetition.
pub open spec fn expanded(
    terms: Seq<Seq<char>>,
    lower: Seq<Seq<char>>,
    known: Seq<bool>,
    n: int,
) -> Seq<Seq<char>>
    decreases n,
{
    if n <= 0 {
        push_all(Seq::empty(), terms)
    } else {
        push_all(
            expanded(terms, lower, known, n - 1),
            variants(lower[n - 1], is_known(lower, known, lower[n - 1])),
        )
    }
}

/// The terms that a query is searched by: the terms that stand in it, and variants of them. `known`
/// tells of each term whether the index knows it, written as it is.
pub fn expand_terms(raw_terms: &Vec<String>, known: &Vec<bool>) -> (r: Vec<String>)
    requires
        known@.len() == raw_terms@.len(),
    ensures
        views(r@) == expanded(
            views(raw_terms@),
            lowered(views(raw_terms@)),
            known@,
            raw_terms@.len() as int,
        ),
{
    let lower = lower_all(raw_terms);
    assert(views(lower@).len() == lower@.len());
    expand_lowered(raw_terms, &lower, known)
}

/// The terms, and variants of them. `lower` holds the lowercase forms of the terms.
pub fn expand_lowered(raw_terms: &Vec<String>, lower: &Vec<String>, known: &Vec<bool>) -> (r: Vec<
    String,
>)
    requires
        lower@.len() == raw_terms@.len(),
        known@.len() == raw_terms@.len(),
    ensures
        views(r@) == expanded(
            views(raw_terms@),
            views(lower@),
            known@,
            raw_terms@.len() as int,
        ),
{
    let mut r: Vec<String> = Vec::new();
    let ghost all = views(raw_terms@);
    let ghost low = views(lower@);
    let mut i: usize = 0;
    assert(views(r@) =~= Seq::<Seq<char>>::empty());
    while i < raw_terms.len()
        invariant
            i <= raw_terms@.len(),
            all == views(raw_terms@),
            views(r@) == push_all(Seq::empty(), all.take(i as int)),
        decreases raw_terms@.len() - i,
    {
        assert(all.take(i + 1).drop_last() =~= all.take(i as int));
        assert(all[i as int] == raw_terms@[i as int]@);
        add_term(&mut r, raw_terms[i].clone());
        i += 1;
    }
    assert(all.take(i as int) =~= all);
    let n: usize = raw_terms.len();
    let mut j: usize = 0;
    while j < n
        invariant
            j <= n,
            n == raw_terms@.len() == known@.len() == lower@.len(),
            all == views(raw_terms@),
            low == views(lower@),
            views(r@) == expanded(all, low, known@, j as int),
        decreases n - j,
    {
        let tl = lower[j].as_str();
        assert(low[j as int] == tl@);
        let flag = known_flag(lower, known, tl);
        let ghost s = views(r@);
        if !flag {
            add_term(&mut r, tl.to_owned());
            proof {
                let one = seq![tl@];
                assert(one.drop_last() =~= Seq::<Seq<char>>::empty());
                assert(push_all(s, one.drop_last()) == s);
                assert(views(r@) == push_all(s, one));
            }
        }
        add_stems(&mut r, tl);
        if !flag {
            add_sub_words(&mut r, tl);
            proof {
                lemma_push_all_add(s, seq![tl@], stems(tl@));
                lemma_push_all_add(s, seq![tl@] + stems(tl@), sub_words(tl@));
            }
        }
        assert(views(r@) == push_all(s, variants(low[j as int], flag)));
        j += 1;
    }
    r
}

/// Whether the index knows the term with the lowercase form `t`.
fn known_flag(lower: &Vec<String>, known: &Vec<bool>, t: &str) -> (r: bool)
    requires
        lower@.len() == known@.len(),
    ensures
        r == is_known(views(lower@), known@, t@),
{
    let ghost low = views(lower@);
    let mut i: usize = lower.len();
    assert(low.take(i as int) =~= low);
    while i > 0
        invariant
            i <= lower@.len(),
            lower@.len() == known@.len(),
            low == views(lower@),
            is_known(low, known@, t@) == is_known(low.take(i as int), known@, t@),
        decreases i,
    {
        assert(low.take(i as int).drop_last() =~= low.take(i - 1));
        assert(low[i - 1] == lower@[i - 1]@);
        if str_eq(lower[i - 1].as_str(), t) {
            return known[i - 1];
        }
        i -= 1;
    }
    false
}

// ---------------------------------------------------------------------------------------------
// Laws
// ---------------------------------------------------------------------------------------------
/// Adding terms keeps those that are there, adds all of them, and repeats none.
proof fn lemma_push_all(s: Seq<Seq<char>>, xs: Seq<Seq<char>>)
    ensures
        s.is_prefix_of(push_all(s, xs)),
        s.no_duplicates() ==> push_all(s, xs).no_duplicates(),
        forall|i: int| 0 <= i < xs.len() ==> push_all(s, xs).contains(#[trigger] xs[i]),
    decreases xs.len(),
{
    if xs.len() > 0 {
        let before = push_all(s, xs.drop_last());
        let after = push_all(s, xs);
        lemma_push_all(s, xs.drop_last());
        assert(after.take(s.len() as int) =~= s);
        assert forall|i: int| 0 <= i < xs.len() implies after.contains(#[trigger] xs[i]) by {
            if i < xs.len() - 1 {
                assert(xs.drop_last()[i] == xs[i]);
                let k = choose|k: int| 0 <= k < before.len() && before[k] == xs[i];
                assert(after[k] == xs[i]);
            } else if !before.contains(xs.last()) {
                assert(after[before.len() as int] == xs.last());
            }
        }
    } else {
        assert(push_all(s, xs).take(s.len() as int) =~= s);
    }
}

/// No term is searched by twice, the terms that stand in the query come first, and all of them are
/// searched by.
pub proof fn law_terms_kept(
    terms: Seq<Seq<char>>,
    lower: Seq<Seq<char>>,
    known: Seq<bool>,
    n: int,
)
    ensures
        expanded(terms, lower, known, n).no_duplicates(),
        push_all(Seq::empty(), terms).is_prefix_of(expanded(terms, lower, known, n)),
        forall|i: int|
            0 <= i < terms.len() ==> expanded(terms, lower, known, n).contains(#[trigger] terms[i]),
    decreases n,
{
    let base = push_all(Seq::empty(), terms);
    let all = expanded(terms, lower, known, n);
    if n <= 0 {
        lemma_push_all(Seq::empty(), terms);
        assert(all.take(base.len() as int) =~= base);
    } else {
        let before = expanded(terms, lower, known, n - 1);
        law_terms_kept(terms, lower, known, n - 1);
        lemma_push_all(before, variants(lower[n - 1], is_known(lower, known, lower[n - 1])));
        assert(all.take(base.len() as int) =~= base);
        assert forall|i: int| 0 <= i < terms.len() implies all.contains(#[trigger] terms[i]) by {
            let k = choose|k: int| 0 <= k < before.len() && before[k] == terms[i];
            assert(all[k] == terms[i]);
        }
    }
}

/// Terms that the index knows are neither taken apart nor searched by in lowercase: where it knows
/// all of them, only stems are added.
pub proof fn law_known_not_split(
    terms: Seq<Seq<char>>,
    lower: Seq<Seq<char>>,
    known: Seq<bool>,
    n: int,
    x: Seq<char>,
)
    requires
        0 <= n <= lower.len(),
        lower.len() == known.len(),
        forall|i: int| 0 <= i < known.len() ==> #[trigger] known[i],
        expanded(terms, lower, known, n).contains(x),
    ensures
        terms.contains(x) || exists|i: int| 0 <= i < n && #[trigger] stems(lower[i]).contains(x),
    decreases n,
{
    if n <= 0 {
        lemma_from(Seq::empty(), terms, x);
    } else {
        let before = expanded(terms, lower, known, n - 1);
        lemma_is_known(lower, known, n - 1);
        lemma_from(before, stems(lower[n - 1]), x);
        if before.contains(x) {
            law_known_not_split(terms, lower, known, n - 1, x);
        }
    }
}

/// What terms were added to holds what was there and what was added.
proof fn lemma_from(s: Seq<Seq<char>>, xs: Seq<Seq<char>>, x: Seq<char>)
    requires
        push_all(s, xs).contains(x),
    ensures
        s.contains(x) || xs.contains(x),
    decreases xs.len(),
{
    if xs.len() > 0 {
        let before = push_all(s, xs.drop_last());
        if before.contains(x) {
            lemma_from(s, xs.drop_last(), x);
            if xs.drop_last().contains(x) {
                let k = choose|k: int| 0 <= k < xs.drop_last().len() && xs.drop_last()[k] == x;
                assert(xs[k] == x);
            }
        } else {
            let all = push_all(s, xs);
            let k = choose|k: int| 0 <= k < all.len() && all[k] == x;
            if k < before.len() {
                assert(before[k] == x);
            }
            assert(xs[xs.len() - 1] == x);
        }
    }
}

/// A term is known where all are.
proof fn lemma_is_known(lower: Seq<Seq<char>>, known: Seq<bool>, i: int)
    requires
        0 <= i < lower.len() <= known.len(),
        forall|i: int| 0 <= i < known.len() ==> #[trigger] known[i],
    ensures
        is_known(lower, known, lower[i]),
    decreases lower.len(),
{
    if i < lower.len() - 1 {
        lemma_is_known(lower.drop_last(), known, i);
    }
}

/// What a stem is: a term that ends with `ing`, `s`, `ed` or `tion` and has more than 4, 3, 4 or 5
/// bytes has what stands before as its stem.
pub proof fn law_stems(x: Seq<char>)
    ensures
        stems(x + "ing"@) == if encode_utf8(x + "ing"@).len() > 4 {
            seq![x]
        } else {
            Seq::empty()
        },
        stems(x + "s"@) == if encode_utf8(x + "s"@).len() > 3 {
            seq![x]
        } else {
            Seq::empty()
        },
        stems(x + "ed"@) == if encode_utf8(x + "ed"@).len() > 4 {
            seq![x]
        } else {
            Seq::empty()
        },
        stems(x + "tion"@) == if encode_utf8(x + "tion"@).len() > 5 {
            seq![x]
        } else {
            Seq::empty()
        },
{
    reveal_strlit("ing");
    reveal_strlit("s");
    reveal_strlit("ed");
    reveal_strlit("tion");
    lemma_one_ending(x + "ing"@);
    lemma_one_ending(x + "s"@);
    lemma_one_ending(x + "ed"@);
    lemma_one_ending(x + "tion"@);
    lemma_ending(x, "ing"@);
    lemma_ending(x, "s"@);
    lemma_ending(x, "ed"@);
    lemma_ending(x, "tion"@);
    assert(stems(x + "ing"@) =~= if encode_utf8(x + "ing"@).len() > 4 {
        seq![x]
    } else {
        Seq::empty()
    });
    assert(stems(x + "s"@) =~= if encode_utf8(x + "s"@).len() > 3 {
        seq![x]
    } else {
        Seq::empty()
    });
    assert(stems(x + "ed"@) =~= if encode_utf8(x + "ed"@).len() > 4 {
        seq![x]
    } else {
        Seq::empty()
    });
    assert(stems(x + "tion"@) =~= if encode_utf8(x + "tion"@).len() > 5 {
        seq![x]
    } else {
        Seq::empty()
    });
}

/// A term that ends otherwise has no stem.
pub proof fn law_no_stem(t: Seq<char>)
    requires
        forall|x: Seq<char>| t != #[trigger] (x + "ing"@),
        forall|x: Seq<char>| t != #[trigger] (x + "s"@),
        forall|x: Seq<char>| t != #[trigger] (x + "ed"@),
        forall|x: Seq<char>| t != #[trigger] (x + "tion"@),
    ensures
        stems(t).len() == 0,
{
    if "ing"@.is_suffix_of(t) {
        let x = t.take(t.len() - "ing"@.len());
        assert(t =~= x + "ing"@);
    }
    if "s"@.is_suffix_of(t) {
        let x = t.take(t.len() - "s"@.len());
        assert(t =~= x + "s"@);
    }
    if "ed"@.is_suffix_of(t) {
        let x = t.take(t.len() - "ed"@.len());
        assert(t =~= x + "ed"@);
    }
    if "tion"@.is_suffix_of(t) {
        let x = t.take(t.len() - "tion"@.len());
        assert(t =~= x + "tion"@);
    }
}

proof fn lemma_ending(x: Seq<char>, end: Seq<char>)
    ensures
        end.is_suffix_of(x + end),
        (x + end).take((x + end).len() - end.len()) == x,
{
    let t = x + end;
    assert(end =~= t.subrange(t.len() - end.len(), t.len() as int));
    assert(t.take(t.len() - end.len()) =~= x);
}

/// A term ends with at most one of the endings.
proof fn lemma_one_ending(t: Seq<char>)
    ensures
        "ing"@.is_suffix_of(t) ==> t.len() >= 3 && t.last() == 'g',
        "s"@.is_suffix_of(t) ==> t.len() >= 1 && t.last() == 's',
        "ed"@.is_suffix_of(t) ==> t.len() >= 2 && t.last() == 'd',
        "tion"@.is_suffix_of(t) ==> t.len() >= 4 && t.last() == 'n',
{
    reveal_strlit("ing");
    reveal_strlit("s");
    reveal_strlit("ed");
    reveal_strlit("tion");
    if "ing"@.is_suffix_of(t) {
        assert(t.subrange(t.len() - 3, t.len() as int)[2] == "ing"@[2]);
    }
    if "s"@.is_suffix_of(t) {
        assert(t.subrange(t.len() - 1, t.len() as int)[0] == "s"@[0]);
    }
    if "ed"@.is_suffix_of(t) {
        assert(t.subrange(t.len() - 2, t.len() as int)[1] == "ed"@[1]);
    }
    if "tion"@.is_suffix_of(t) {
        assert(t.subrange(t.len() - 4, t.len() as int)[3] == "tion"@[3]);
    }
}

/// How a term falls into parts: underscores and hyphens part it, and a part of fewer than three bytes
/// is left out.
pub proof fn law_parts(a: Seq<char>, c: char, b: Seq<char>)
    requires
        !a.contains('_'),
        !a.contains('-'),
        c == '_' || c == '-',
    ensures
        parts_from(a, 0) == if encode_utf8(a).len() >= 3 {
            seq![a]
        } else {
            Seq::empty()
        },
        parts_from(a.push(c) + b, 0) == parts_from(a, 0) + parts_from(b, 0),
        sub_words(a) == Seq::<Seq<char>>::empty(),
{
    let n = a.len() as int;
    assert forall|i: int| 0 <= i < n implies !is_joint(#[trigger] a[i]) by {
        assert(a.contains(a[i]));
    }
    lemma_part_end_at(a, 0, n);
    assert(a.subrange(0, n) =~= a);
    let t = a.push(c) + b;
    assert forall|i: int| 0 <= i < n implies !is_joint(#[trigger] t[i]) by {
        assert(!is_joint(a[i]));
    }
    lemma_part_end_at(t, 0, n);
    assert(t.subrange(0, n) =~= a);
    lemma_parts_shift(t, n + 1, 0);
    assert(t.skip(n + 1) =~= b);
}

/// A part ends where the first joint stands.
proof fn lemma_part_end_at(t: Seq<char>, from: int, to: int)
    requires
        0 <= from <= to <= t.len(),
        forall|i: int| from <= i < to ==> !is_joint(#[trigger] t[i]),
        to < t.len() ==> is_joint(t[to]),
    ensures
        part_end(t, from) == to,
    decreases to - from,
{
    if from < to {
        assert(!is_joint(t[from]));
        lemma_part_end_at(t, from + 1, to);
    }
}

/// The parts from a place on are those of what stands there.
proof fn lemma_parts_shift(t: Seq<char>, from: int, k: int)
    requires
        0 <= from,
        0 <= k,
        from + k <= t.len(),
    ensures
        parts_from(t, from + k) == parts_from(t.skip(from), k),
    decreases t.len() - from - k,
{
    let u = t.skip(from);
    let e = part_end(t, from + k);
    lemma_part_end(t, from + k);
    lemma_part_stops(t, from + k);
    assert forall|i: int| k <= i < e - from implies !is_joint(#[trigger] u[i]) by {
        assert(!is_joint(t[from + i]));
    }
    lemma_part_end_at(u, k, e - from);
    assert(t.subrange(from + k, e) =~= u.subrange(k, e - from));
    if e < t.len() {
        lemma_parts_shift(t, from, e + 1 - from);
    }
}

proof fn lemma_part_stops(t: Seq<char>, from: int)
    requires
        0 <= from <= t.len(),
    ensures
        forall|i: int| from <= i < part_end(t, from) ==> !is_joint(#[trigger] t[i]),
        part_end(t, from) < t.len() ==> is_joint(t[part_end(t, from)]),
    decreases t.len() - from,
{
    if from < t.len() && !is_joint(t[from]) {
        lemma_part_stops(t, from + 1);
    }
}

/// A term with an underscore or a hyphen is also looked for by its parts, and by each two that stand
/// side by side, joined by an underscore.
pub proof fn law_sub_words(t: Seq<char>, i: int)
    requires
        t.contains('_') || t.contains('-'),
    ensures
        0 <= i < parts_from(t, 0).len() ==> sub_words(t)[i] == parts_from(t, 0)[i],
        0 <= i < parts_from(t, 0).len() - 1 ==> sub_words(t)[parts_from(t, 0).len() + i] == parts_from(
            t,
            0,
        )[i].push('_') + parts_from(t, 0)[i + 1],
        parts_from(t, 0).len() > 0 ==> sub_words(t).len() == 2 * parts_from(t, 0).len() - 1,
        parts_from(t, 0).len() == 0 ==> sub_words(t).len() == 0,
{
    reveal_strlit("_");
    if t.contains('_') {
        let k = choose|k: int| 0 <= k < t.len() && t[k] == '_';
        assert(is_joint(t[k]));
    } else {
        let k = choose|k: int| 0 <= k < t.len() && t[k] == '-';
        assert(is_joint(t[k]));
    }
    let w = parts_from(t, 0);
    if 0 <= i < w.len() - 1 {
        assert(w[i] + "_"@ + w[i + 1] =~= w[i].push('_') + w[i + 1]);
    }
}

/// A term that the index knows is looked for by its stems besides; one that it does not know also in
/// lower case and by its parts.
pub proof fn law_variants(t: Seq<char>, x: Seq<char>)
    ensures
        variants(t, true).contains(x) <==> stems(t).contains(x),
        variants(t, false).contains(x) <==> x == t || stems(t).contains(x) || sub_words(t).contains(x),
{
    let v = variants(t, false);
    let a = seq![t];
    let s = stems(t);
    let w = sub_words(t);
    if v.contains(x) {
        let i = choose|i: int| 0 <= i < v.len() && v[i] == x;
        if i == 0 {
        } else if i < 1 + s.len() {
            assert(s[i - 1] == x);
        } else {
            assert(w[i - 1 - s.len()] == x);
        }
    }
    if x == t {
        assert(v[0] == x);
    }
    if s.contains(x) {
        let i = choose|i: int| 0 <= i < s.len() && s[i] == x;
        assert(v[1 + i] == x);
    }
    if w.contains(x) {
        let i = choose|i: int| 0 <= i < w.len() && w[i] == x;
        assert(v[1 + s.len() + i] == x);
    }
}

/// What is known of a term is what was found out of the last one that reads the same; of a term that
/// is not there nothing is.
pub proof fn law_known_is_last(lower: Seq<Seq<char>>, known: Seq<bool>, t: Seq<char>, i: int)
    ensures
        0 <= i < lower.len() && lower[i] == t && (forall|j: int|
            i < j < lower.len() ==> #[trigger] lower[j] != t) ==> is_known(lower, known, t) == known[i],
        !lower.contains(t) ==> !is_known(lower, known, t),
    decreases lower.len(),
{
    if lower.len() > 0 {
        let s = lower.drop_last();
        if lower.last() == t {
            assert(lower.contains(lower[lower.len() - 1]));
        } else {
            law_known_is_last(s, known, t, i);
            if s.contains(t) {
                let k = choose|k: int| 0 <= k < s.len() && s[k] == t;
                assert(lower[k] == t);
            }
            if 0 <= i < lower.len() && lower[i] == t && (forall|j: int|
                i < j < lower.len() ==> #[trigger] lower[j] != t) {
                assert forall|j: int| i < j < s.len() implies #[trigger] s[j] != t by {
                    assert(lower[j] != t);
                }
            }
        }
    }
}

/// What a query is looked for by: its terms and the variants of each, and nothing else. Further terms
/// are added behind what is there.
pub proof fn law_expanded_exactly(
    terms: Seq<Seq<char>>,
    lower: Seq<Seq<char>>,
    known: Seq<bool>,
    n: int,
    x: Seq<char>,
)
    requires
        0 <= n,
    ensures
        expanded(terms, lower, known, n).contains(x) <==> terms.contains(x) || exists|i: int|
            0 <= i < n && variants(#[trigger] lower[i], is_known(lower, known, lower[i])).contains(x),
        expanded(terms, lower, known, n).is_prefix_of(expanded(terms, lower, known, n + 1)),
    decreases n,
{
    lemma_push_all(
        expanded(terms, lower, known, n),
        variants(lower[n], is_known(lower, known, lower[n])),
    );
    if n == 0 {
        lemma_push_all(Seq::empty(), terms);
        if expanded(terms, lower, known, 0).contains(x) {
            lemma_from(Seq::empty(), terms, x);
        }
        if terms.contains(x) {
            let i = choose|i: int| 0 <= i < terms.len() && terms[i] == x;
            assert(push_all(Seq::empty(), terms).contains(terms[i]));
        }
    } else {
        law_expanded_exactly(terms, lower, known, n - 1, x);
        let s = expanded(terms, lower, known, n - 1);
        let xs = variants(lower[n - 1], is_known(lower, known, lower[n - 1]));
        lemma_push_all(s, xs);
        let all = expanded(terms, lower, known, n);
        if all.contains(x) {
            lemma_from(s, xs, x);
            if xs.contains(x) {
                assert(variants(lower[n - 1], is_known(lower, known, lower[n - 1])).contains(x));
            }
        }
        if s.contains(x) {
            let i = choose|i: int| 0 <= i < s.len() && s[i] == x;
            assert(all.subrange(0, s.len() as int)[i] == x);
            assert(all[i] == x);
        }
        if xs.contains(x) {
            let i = choose|i: int| 0 <= i < xs.len() && xs[i] == x;
            assert(push_all(s, xs).contains(xs[i]));
        }
    }
}

/// The terms of a query are its phrases in order, the first hundred of them.
pub proof fn law_terms_are_phrases(query: Seq<char>, i: int)
    ensures
        0 <= i < phrases(query).len() && i < 100 ==> i < terms_of(query).len() && terms_of(query)[i]
            == phrases(query)[i],
        terms_of(query).len() <= phrases(query).len(),
        terms_of(query).len() <= 100,
{
}

/// Every term is lower cased for itself.
pub proof fn law_lowered(terms: Seq<Seq<char>>, i: int)
    requires
        0 <= i < terms.len(),
    ensures
        lowered(terms).len() == terms.len(),
        lowered(terms)[i] == lowercase(terms[i]),
{
}

/// A term is added where it is not there yet, and what is there keeps its place.
pub proof fn law_terms_added_once(s: Seq<Seq<char>>, xs: Seq<Seq<char>>, x: Seq<char>)
    ensures
        push_all(s, Seq::empty()) == s,
        push_all(s, xs).contains(x) ==> push_all(s, xs.push(x)) == push_all(s, xs),
        !push_all(s, xs).contains(x) ==> push_all(s, xs.push(x)) == push_all(s, xs).push(x),
{
    assert(xs.push(x).drop_last() =~= xs);
}

} // verus!
