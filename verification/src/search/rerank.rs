//! When a search is repeated with the most telling term of the query, and what then comes of it.

use vstd::prelude::*;

use super::terms::{lower_all, lowered};
use crate::text::{contains, lowercase, occurs, str_eq, to_lowercase, views};

verus! {

broadcast use vstd::seq::group_seq_axioms;

/// The path `p` holds all the terms, written as they are.
pub open spec fn spans(p: Seq<char>, terms: Seq<Seq<char>>) -> bool {
    forall|i: int| 0 <= i < terms.len() ==> occurs(p, #[trigger] terms[i])
}

/// Whether a path holds all the terms, written as they are.
pub fn spans_terms(path: &str, terms: &Vec<String>) -> (r: bool)
    ensures
        r == spans(path@, views(terms@)),
{
    let ghost all = views(terms@);
    let mut i: usize = 0;
    while i < terms.len()
        invariant
            i <= terms@.len(),
            all == views(terms@),
            forall|k: int| 0 <= k < i ==> occurs(path@, #[trigger] all[k]),
        decreases terms@.len() - i,
    {
        assert(all[i as int] == terms@[i as int]@);
        if !contains(path, terms[i].as_str()) {
            assert(!occurs(path@, all[i as int]));
            return false;
        }
        i += 1;
    }
    true
}

/// A search for two or more terms is repeated where the path of its first result, if it has one,
/// does not hold all of them.
pub open spec fn repeats(top: Option<Seq<char>>, terms: Seq<Seq<char>>) -> bool {
    terms.len() >= 2 && match top {
        Some(path) => !spans(lowercase(path), lowered(terms)),
        None => true,
    }
}

/// Whether a search is repeated.
pub fn needs_requery(top: Option<&str>, raw_terms: &Vec<String>) -> (r: bool)
    ensures
        r == repeats(
            match top {
                Some(t) => Some(t@),
                None => None,
            },
            views(raw_terms@),
        ),
{
    if raw_terms.len() < 2 {
        return false;
    }
    match top {
        None => true,
        Some(path) => !spans_terms(to_lowercase(path).as_str(), &lower_all(raw_terms)),
    }
}

/// The position of the largest key, the last of several; 0 where there are none.
pub open spec fn is_last_max(keys: Seq<u64>, i: int) -> bool {
    if keys.len() == 0 {
        i == 0
    } else {
        &&& 0 <= i < keys.len()
        &&& forall|k: int| 0 <= k < keys.len() ==> #[trigger] keys[k] <= keys[i]
        &&& forall|k: int| i < k < keys.len() ==> #[trigger] keys[k] < keys[i]
    }
}

/// The most telling of the terms: the last of those with the largest key.
pub fn best_term(keys: &Vec<u64>) -> (i: usize)
    ensures
        is_last_max(keys@, i as int),
{
    let mut best: usize = 0;
    let mut k: usize = 1;
    if keys.len() == 0 {
        return 0;
    }
    while k < keys.len()
        invariant
            1 <= k <= keys@.len(),
            best < k,
            forall|j: int| 0 <= j < k ==> #[trigger] keys@[j] <= keys@[best as int],
            forall|j: int| best < j < k ==> #[trigger] keys@[j] < keys@[best as int],
        decreases keys@.len() - k,
    {
        if keys[k] >= keys[best] {
            best = k;
        }
        k += 1;
    }
    best
}

/// How many of the terms other than that at `best` the path `p` holds, written as they are.
pub open spec fn others_held(p: Seq<char>, terms: Seq<Seq<char>>, best: int) -> nat
    decreases terms.len(),
{
    if terms.len() == 0 {
        0
    } else {
        others_held(p, terms.drop_last(), best) + if terms.len() - 1 != best && occurs(
            p,
            terms.last(),
        ) {
            1nat
        } else {
            0nat
        }
    }
}

/// How many terms a path counts for: that at `best`, and the others that it holds, written as they
/// are.
pub fn count_held(path: &str, terms: &Vec<String>, best: usize) -> (n: usize)
    requires
        terms@.len() < usize::MAX,
    ensures
        n == 1 + others_held(path@, views(terms@), best as int),
{
    let ghost all = views(terms@);
    let mut n: usize = 1;
    let mut i: usize = 0;
    while i < terms.len()
        invariant
            i <= terms@.len() < usize::MAX,
            all == views(terms@),
            n <= i + 1,
            n == 1 + others_held(path@, all.take(i as int), best as int),
        decreases terms@.len() - i,
    {
        assert(all.take(i + 1).drop_last() =~= all.take(i as int));
        assert(all[i as int] == terms@[i as int]@);
        if i != best && contains(path, terms[i].as_str()) {
            n += 1;
        }
        i += 1;
    }
    assert(all.take(i as int) =~= all);
    n
}

/// How many terms of the query a result of the repeated search counts for, in whatever case they are
/// written: the one that it was found by, and the others that its path holds.
pub fn terms_held(path: &str, raw_terms: &Vec<String>, best: usize) -> (n: usize)
    requires
        raw_terms@.len() < usize::MAX,
    ensures
        n == 1 + others_held(lowercase(path@), lowered(views(raw_terms@)), best as int),
{
    let lower = lower_all(raw_terms);
    assert(views(lower@).len() == lower@.len());
    count_held(to_lowercase(path).as_str(), &lower, best)
}

/// The two searches have different first results, or only one of them has any.
pub open spec fn differs(top: Option<Seq<char>>, reranked_top: Option<Seq<char>>) -> bool {
    match (top, reranked_top) {
        (Some(a), Some(b)) => a != b,
        (None, None) => false,
        _ => true,
    }
}

/// Whether the results of the repeated search replace the first ones: where they start with another
/// file.
pub fn replaces(top: Option<&str>, reranked_top: Option<&str>) -> (r: bool)
    ensures
        r == differs(
            match top {
                Some(t) => Some(t@),
                None => None,
            },
            match reranked_top {
                Some(t) => Some(t@),
                None => None,
            },
        ),
{
    match (top, reranked_top) {
        (Some(a), Some(b)) => !str_eq(a, b),
        (None, None) => false,
        _ => true,
    }
}

/// A search whose first result spans the query is not repeated, nor is one for a single term.
pub proof fn law_spanning_result_stands(path: Seq<char>, terms: Seq<Seq<char>>)
    requires
        spans(lowercase(path), lowered(terms)) || terms.len() < 2,
    ensures
        !repeats(Some(path), terms),
{
}

/// When a query is asked again: with two terms or more, where nothing was found or where the path of
/// the best result lacks one of them, in whatever case they are written.
pub proof fn law_when_asked_again(path: Seq<char>, terms: Seq<Seq<char>>)
    ensures
        repeats(Some(path), terms) <==> terms.len() >= 2 && exists|i: int|
            0 <= i < terms.len() && !occurs(lowercase(path), lowercase(#[trigger] terms[i])),
        repeats(None, terms) <==> terms.len() >= 2,
{
    let l = lowered(terms);
    assert forall|i: int| 0 <= i < terms.len() implies #[trigger] l[i] == lowercase(terms[i]) by {}
    if !spans(lowercase(path), l) {
        let i = choose|i: int| 0 <= i < l.len() && !occurs(lowercase(path), #[trigger] l[i]);
        assert(!occurs(lowercase(path), lowercase(terms[i])));
    }
    if exists|i: int| 0 <= i < terms.len() && !occurs(lowercase(path), lowercase(#[trigger] terms[i])) {
        let i = choose|i: int|
            0 <= i < terms.len() && !occurs(lowercase(path), lowercase(#[trigger] terms[i]));
        assert(!occurs(lowercase(path), l[i]));
    }
}

/// Which term is the best: no other has a larger key, and none behind it has the same. There is one
/// such term.
pub proof fn law_best_term(keys: Seq<u64>, i: int, j: int)
    requires
        is_last_max(keys, i),
    ensures
        keys.len() > 0 ==> 0 <= i < keys.len(),
        keys.len() == 0 ==> i == 0,
        0 <= j < keys.len() ==> keys[j] <= keys[i],
        i < j < keys.len() ==> keys[j] < keys[i],
        is_last_max(keys, j) ==> j == i,
{
    if is_last_max(keys, j) && keys.len() > 0 {
        assert(keys[j] <= keys[i] && keys[i] <= keys[j]);
    }
}

/// How many further terms a path holds: each but the best counts one where the path holds it.
pub proof fn law_others_held(p: Seq<char>, terms: Seq<Seq<char>>, t: Seq<char>, best: int)
    ensures
        others_held(p, Seq::empty(), best) == 0,
        terms.len() == best ==> others_held(p, terms.push(t), best) == others_held(p, terms, best),
        terms.len() != best && occurs(p, t) ==> others_held(p, terms.push(t), best) == others_held(
            p,
            terms,
            best,
        ) + 1,
        !occurs(p, t) ==> others_held(p, terms.push(t), best) == others_held(p, terms, best),
        others_held(p, terms, best) <= terms.len(),
    decreases terms.len(),
{
    assert(terms.push(t).drop_last() =~= terms);
    if terms.len() > 0 {
        law_others_held(p, terms.drop_last(), t, best);
    }
}

/// The repeated search replaces the first one exactly where it comes to something else.
pub proof fn law_replaced_where_different(a: Option<Seq<char>>, b: Option<Seq<char>>)
    ensures
        differs(a, b) <==> a != b,
{
}

} // verus!
