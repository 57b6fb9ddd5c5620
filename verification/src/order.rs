//! Sorting: a merge sort that gives the positions of the sorted elements, and the two orders that
//! the library sorts by.

use vstd::prelude::*;
use vstd::utf8::*;

verus! {

broadcast use vstd::seq::group_seq_axioms;

/// A strict total order on the positions `0..size`.
pub trait Ranking {
    /// How many positions there are.
    spec fn size(&self) -> nat;

    /// The position `i` comes before the position `j`.
    spec fn before(&self, i: int, j: int) -> bool;

    /// Of two different positions one comes before the other.
    proof fn lemma_total(&self, i: int, j: int)
        requires
            i != j,
        ensures
            self.before(i, j) || self.before(j, i),
    ;

    /// No position comes before itself.
    proof fn lemma_irreflexive(&self, i: int)
        ensures
            !self.before(i, i),
    ;

    /// What comes before a position comes before all that follow it.
    proof fn lemma_transitive(&self, i: int, j: int, k: int)
        requires
            self.before(i, j),
            self.before(j, k),
        ensures
            self.before(i, k),
    ;

    /// Whether the position `i` comes before the position `j`.
    fn comes_before(&self, i: usize, j: usize) -> (r: bool)
        requires
            i < self.size(),
            j < self.size(),
        ensures
            r == self.before(i as int, j as int),
    ;
}

/// Each element of `v` comes before all that follow it.
pub open spec fn in_order<R: Ranking>(r: &R, v: Seq<usize>) -> bool {
    forall|a: int, b: int|
        0 <= a < b < v.len() ==> r.before(#[trigger] v[a] as int, #[trigger] v[b] as int)
}

/// `v` holds the numbers `lo..hi`, each once.
pub open spec fn arranges(v: Seq<usize>, lo: int, hi: int) -> bool {
    &&& v.len() == hi - lo
    &&& forall|k: int| 0 <= k < v.len() ==> lo <= #[trigger] v[k] < hi
    &&& forall|a: int, b: int| 0 <= a < b < v.len() ==> #[trigger] v[a] != #[trigger] v[b]
    &&& forall|x: usize| lo <= x < hi ==> #[trigger] v.contains(x)
}

/// Merges two sorted sequences of positions.
fn merge<R: Ranking>(r: &R, a: &Vec<usize>, b: &Vec<usize>, Ghost(mid): Ghost<int>) -> (out: Vec<
    usize,
>)
    requires
        in_order(r, a@),
        in_order(r, b@),
        forall|k: int| 0 <= k < a@.len() ==> (#[trigger] a@[k]) < mid && a@[k] < r.size(),
        forall|k: int| 0 <= k < b@.len() ==> mid <= (#[trigger] b@[k]) < r.size(),
    ensures
        in_order(r, out@),
        out@.len() == a@.len() + b@.len(),
        forall|k: int|
            0 <= k < out@.len() ==> a@.contains(#[trigger] out@[k]) || b@.contains(out@[k]),
        forall|k: int| 0 <= k < a@.len() ==> out@.contains(#[trigger] a@[k]),
        forall|k: int| 0 <= k < b@.len() ==> out@.contains(#[trigger] b@[k]),
{
    let mut out: Vec<usize> = Vec::new();
    let mut i: usize = 0;
    let mut j: usize = 0;
    while i < a.len() || j < b.len()
        invariant
            in_order(r, a@),
            in_order(r, b@),
            forall|k: int| 0 <= k < a@.len() ==> (#[trigger] a@[k]) < mid && a@[k] < r.size(),
            forall|k: int| 0 <= k < b@.len() ==> mid <= (#[trigger] b@[k]) < r.size(),
            i <= a@.len(),
            j <= b@.len(),
            out@.len() == i + j,
            in_order(r, out@),
            forall|k: int, l: int|
                0 <= k < out@.len() && i <= l < a@.len() ==> r.before(
                    #[trigger] out@[k] as int,
                    #[trigger] a@[l] as int,
                ),
            forall|k: int, l: int|
                0 <= k < out@.len() && j <= l < b@.len() ==> r.before(
                    #[trigger] out@[k] as int,
                    #[trigger] b@[l] as int,
                ),
            forall|k: int|
                0 <= k < out@.len() ==> a@.contains(#[trigger] out@[k]) || b@.contains(out@[k]),
            forall|k: int| 0 <= k < i ==> out@.contains(#[trigger] a@[k]),
            forall|k: int| 0 <= k < j ==> out@.contains(#[trigger] b@[k]),
        decreases a@.len() + b@.len() - i - j,
    {
        let ghost old_out = out@;
        let take_a = if i >= a.len() {
            false
        } else if j >= b.len() {
            true
        } else {
            proof {
                r.lemma_total(a@[i as int] as int, b@[j as int] as int);
            }
            r.comes_before(a[i], b[j])
        };
        if take_a {
            let x = a[i];
            out.push(x);
            proof {
                assert(out@[old_out.len() as int] == x);
                if j < b@.len() {
                    assert forall|l: int| j <= l < b@.len() implies r.before(
                        x as int,
                        #[trigger] b@[l] as int,
                    ) by {
                        if l > j {
                            r.lemma_transitive(x as int, b@[j as int] as int, b@[l] as int);
                        }
                    }
                }
                lemma_contains_push(old_out, x);
                assert(out@.contains(x));
            }
            i += 1;
        } else {
            let x = b[j];
            out.push(x);
            proof {
                assert(out@[old_out.len() as int] == x);
                if i < a@.len() {
                    assert forall|l: int| i <= l < a@.len() implies r.before(
                        x as int,
                        #[trigger] a@[l] as int,
                    ) by {
                        if l > i {
                            r.lemma_transitive(x as int, a@[i as int] as int, a@[l] as int);
                        }
                    }
                }
                lemma_contains_push(old_out, x);
                assert(out@.contains(x));
            }
            j += 1;
        }
    }
    out
}

/// What is in a sequence stays in it when something is appended.
proof fn lemma_contains_push(s: Seq<usize>, x: usize)
    ensures
        forall|y: usize| #[trigger] s.contains(y) ==> s.push(x).contains(y),
{
    assert forall|y: usize| #[trigger] s.contains(y) implies s.push(x).contains(y) by {
        let k = choose|k: int| 0 <= k < s.len() && s[k] == y;
        assert(s.push(x)[k] == y);
    }
}

/// The positions `lo..hi` in order.
fn sort_range<R: Ranking>(r: &R, lo: usize, hi: usize) -> (v: Vec<usize>)
    requires
        lo <= hi <= r.size(),
    ensures
        in_order(r, v@),
        arranges(v@, lo as int, hi as int),
    decreases hi - lo,
{
    let mut v: Vec<usize> = Vec::new();
    if lo == hi {
        return v;
    }
    if hi - lo == 1 {
        v.push(lo);
        assert(v@[0] == lo);
        assert(v@.contains(lo));
        return v;
    }
    let mid: usize = lo + (hi - lo) / 2;
    let a = sort_range(r, lo, mid);
    let b = sort_range(r, mid, hi);
    let out = merge(r, &a, &b, Ghost(mid as int));
    proof {
        assert forall|x: usize| lo <= x < hi implies #[trigger] out@.contains(x) by {
            if x < mid {
                assert(a@.contains(x));
                let k = choose|k: int| 0 <= k < a@.len() && a@[k] == x;
                assert(out@.contains(a@[k]));
            } else {
                assert(b@.contains(x));
                let k = choose|k: int| 0 <= k < b@.len() && b@[k] == x;
                assert(out@.contains(b@[k]));
            }
        }
        assert forall|k: int| 0 <= k < out@.len() implies lo <= #[trigger] out@[k] < hi by {
            if a@.contains(out@[k]) {
                let l = choose|l: int| 0 <= l < a@.len() && a@[l] == out@[k];
            } else {
                let l = choose|l: int| 0 <= l < b@.len() && b@[l] == out@[k];
            }
        }
        assert forall|a: int, b: int| 0 <= a < b < out@.len() implies #[trigger] out@[a]
            != #[trigger] out@[b] by {
            r.lemma_irreflexive(out@[a] as int);
            assert(r.before(out@[a] as int, out@[b] as int));
        }
    }
    out
}

/// The positions `0..n` in order.
pub fn sort<R: Ranking>(r: &R, n: usize) -> (v: Vec<usize>)
    requires
        n == r.size(),
    ensures
        in_order(r, v@),
        arranges(v@, 0, n as int),
{
    sort_range(r, 0, n)
}

/// There is one way to put the positions in order.
pub proof fn law_sorted_unique<R: Ranking>(r: &R, v: Seq<usize>, w: Seq<usize>, n: nat)
    requires
        arranges(v, 0, n as int),
        arranges(w, 0, n as int),
        in_order(r, v),
        in_order(r, w),
    ensures
        v == w,
{
    assert forall|k: int| 0 <= k < n implies v[k] == w[k] by {
        lemma_same_prefix(r, v, w, n, k);
    }
    assert(v =~= w);
}

/// Two arrangements in order agree at each position.
proof fn lemma_same_prefix<R: Ranking>(r: &R, v: Seq<usize>, w: Seq<usize>, n: nat, k: int)
    requires
        arranges(v, 0, n as int),
        arranges(w, 0, n as int),
        in_order(r, v),
        in_order(r, w),
        0 <= k < n,
    ensures
        v[k] == w[k],
    decreases k,
{
    if v[k] != w[k] {
        assert(w.contains(v[k]));
        assert(v.contains(w[k]));
        let a = choose|a: int| 0 <= a < w.len() && w[a] == v[k];
        let b = choose|b: int| 0 <= b < v.len() && v[b] == w[k];
        if a < k {
            lemma_same_prefix(r, v, w, n, a);
            r.lemma_irreflexive(v[a] as int);
            assert(r.before(v[a] as int, v[k] as int));
        } else if b < k {
            lemma_same_prefix(r, v, w, n, b);
            r.lemma_irreflexive(w[b] as int);
            assert(r.before(w[b] as int, w[k] as int));
        } else {
            assert(r.before(w[k] as int, w[a] as int));
            assert(r.before(v[k] as int, v[b] as int));
            r.lemma_transitive(v[k] as int, w[k] as int, v[k] as int);
            r.lemma_irreflexive(v[k] as int);
        }
    }
}

/// `r` holds the elements of `s`, each as often as `s` does, in some order.
pub open spec fn reordered<T>(r: Seq<T>, s: Seq<T>) -> bool {
    &&& r.len() == s.len()
    &&& exists|p: Seq<usize>| #[trigger]
        arranges(p, 0, s.len() as int) && forall|k: int|
            0 <= k < r.len() ==> #[trigger] r[k] == s[p[k] as int]
}

/// A reordered sequence holds what the other one holds.
pub proof fn lemma_reordered_contains<T>(r: Seq<T>, s: Seq<T>)
    requires
        reordered(r, s),
        s.len() <= usize::MAX,
    ensures
        forall|x: T| r.contains(x) <==> s.contains(x),
{
    let p = choose|p: Seq<usize>| #[trigger]
        arranges(p, 0, s.len() as int) && forall|k: int|
            0 <= k < r.len() ==> #[trigger] r[k] == s[p[k] as int];
    assert forall|x: T| r.contains(x) implies s.contains(x) by {
        let k = choose|k: int| 0 <= k < r.len() && r[k] == x;
        assert(s[p[k] as int] == x);
    }
    assert forall|x: T| s.contains(x) implies r.contains(x) by {
        let i = choose|i: int| 0 <= i < s.len() && s[i] == x;
        assert(p.contains(i as usize));
        let k = choose|k: int| 0 <= k < p.len() && p[k] == i as usize;
        assert(r[k] == x);
    }
}

// ---------------------------------------------------------------------------------------------
// By score
// ---------------------------------------------------------------------------------------------
/// Larger scores first; equal scores stay as they were.
pub struct ByScore {
    pub scores: Vec<u64>,
}

impl Ranking for ByScore {
    open spec fn size(&self) -> nat {
        self.scores@.len()
    }

    open spec fn before(&self, i: int, j: int) -> bool {
        self.scores@[i] > self.scores@[j] || (self.scores@[i] == self.scores@[j] && i < j)
    }

    proof fn lemma_total(&self, i: int, j: int) {
    }

    proof fn lemma_irreflexive(&self, i: int) {
    }

    proof fn lemma_transitive(&self, i: int, j: int, k: int) {
    }

    fn comes_before(&self, i: usize, j: usize) -> (r: bool) {
        self.scores[i] > self.scores[j] || (self.scores[i] == self.scores[j] && i < j)
    }
}

/// The position `i` ranks before the position `j`: it scores higher, or the same and stands before.
pub open spec fn ranks_before(scores: Seq<u64>, i: int, j: int) -> bool {
    scores[i] > scores[j] || (scores[i] == scores[j] && i < j)
}

/// `r` holds the `n` positions that rank first, or all where there are fewer, in their order.
pub open spec fn is_top(r: Seq<usize>, scores: Seq<u64>, n: int) -> bool {
    &&& r.len() == if n < scores.len() {
        n
    } else {
        scores.len() as int
    }
    &&& forall|k: int| 0 <= k < r.len() ==> (#[trigger] r[k]) < scores.len()
    &&& forall|a: int, b: int|
        0 <= a < b < r.len() ==> ranks_before(
            scores,
            #[trigger] r[a] as int,
            #[trigger] r[b] as int,
        )
    &&& forall|a: int, x: usize|
        0 <= a < r.len() && x < scores.len() && !(#[trigger] r.contains(x)) ==> ranks_before(
            scores,
            #[trigger] r[a] as int,
            x as int,
        )
}

/// The positions of the `n` highest scores, the highest first; equal scores stay as they were.
pub fn top(scores: &Vec<u64>, n: usize) -> (r: Vec<usize>)
    ensures
        is_top(r@, scores@, n as int),
{
    let by = ByScore { scores: scores.clone() };
    assert(by.scores@ =~= scores@);
    let order = sort(&by, scores.len());
    let mut r: Vec<usize> = Vec::new();
    let mut i: usize = 0;
    while i < order.len() && i < n
        invariant
            i <= order@.len(),
            i <= n,
            r@ == order@.take(i as int),
        decreases order@.len() - i,
    {
        r.push(order[i]);
        i += 1;
    }
    proof {
        assert forall|a: int, b: int| 0 <= a < b < r@.len() implies ranks_before(
            scores@,
            #[trigger] r@[a] as int,
            #[trigger] r@[b] as int,
        ) by {
            assert(by.before(order@[a] as int, order@[b] as int));
        }
        assert forall|a: int, x: usize|
            0 <= a < r@.len() && x < scores@.len() && !(#[trigger] r@.contains(x)) implies ranks_before(
            scores@,
            #[trigger] r@[a] as int,
            x as int,
        ) by {
            assert(order@.contains(x));
            let b = choose|b: int| 0 <= b < order@.len() && order@[b] == x;
            if b < r@.len() {
                assert(r@[b] == x);
            }
            assert(by.before(order@[a] as int, order@[b] as int));
        }
    }
    r
}

/// The positions that rank first are determined by the scores.
pub proof fn law_top_unique(r: Seq<usize>, s: Seq<usize>, scores: Seq<u64>, n: int)
    requires
        is_top(r, scores, n),
        is_top(s, scores, n),
    ensures
        r == s,
{
    assert forall|k: int| 0 <= k < r.len() implies r[k] == s[k] by {
        lemma_top_agree(r, s, scores, n, k);
    }
    assert(r =~= s);
}

/// Two lists of the positions that rank first agree at each place.
proof fn lemma_top_agree(r: Seq<usize>, s: Seq<usize>, scores: Seq<u64>, n: int, k: int)
    requires
        is_top(r, scores, n),
        is_top(s, scores, n),
        0 <= k < r.len(),
    ensures
        r[k] == s[k],
{
    if r[k] != s[k] {
        lemma_top_after(r, s, scores, n, k);
        lemma_top_after(s, r, scores, n, k);
    }
}

/// Where two such lists first differ, what the one has there ranks after what the other has.
proof fn lemma_top_after(r: Seq<usize>, s: Seq<usize>, scores: Seq<u64>, n: int, k: int)
    requires
        is_top(r, scores, n),
        is_top(s, scores, n),
        0 <= k < r.len(),
        r[k] != s[k],
    ensures
        ranks_before(scores, s[k] as int, r[k] as int),
    decreases k, 1int,
{
    if s.contains(r[k]) {
        let j = choose|j: int| 0 <= j < s.len() && s[j] == r[k];
        if j < k {
            lemma_top_agree_below(r, s, scores, n, j, k);
            assert(ranks_before(scores, r[j] as int, r[k] as int));
        } else {
            assert(ranks_before(scores, s[k] as int, s[j] as int));
        }
    } else {
        assert(ranks_before(scores, s[k] as int, r[k] as int));
    }
}

/// Two such lists agree below each place.
proof fn lemma_top_agree_below(
    r: Seq<usize>,
    s: Seq<usize>,
    scores: Seq<u64>,
    n: int,
    j: int,
    k: int,
)
    requires
        is_top(r, scores, n),
        is_top(s, scores, n),
        0 <= j < k < r.len(),
    ensures
        r[j] == s[j],
    decreases k, 0int,
{
    if r[j] != s[j] {
        lemma_top_after(r, s, scores, n, j);
        lemma_top_after(s, r, scores, n, j);
    }
}

// ---------------------------------------------------------------------------------------------
// By text
// ---------------------------------------------------------------------------------------------
/// `a` comes before `b` where they first differ, or is a proper prefix of it.
pub open spec fn bytes_before(a: Seq<u8>, b: Seq<u8>) -> bool
    decreases a.len(),
{
    if b.len() == 0 {
        false
    } else if a.len() == 0 {
        true
    } else {
        a[0] < b[0] || (a[0] == b[0] && bytes_before(a.drop_first(), b.drop_first()))
    }
}

/// No string comes before itself.
pub proof fn lemma_text_irreflexive(a: Seq<char>)
    ensures
        !text_before(a, a),
{
    lemma_bytes_irreflexive(encode_utf8(a));
}

/// A string that comes before one that comes before a third comes before the third.
pub proof fn lemma_text_transitive(a: Seq<char>, b: Seq<char>, c: Seq<char>)
    requires
        text_before(a, b),
        text_before(b, c),
    ensures
        text_before(a, c),
{
    lemma_bytes_transitive(encode_utf8(a), encode_utf8(b), encode_utf8(c));
}

/// The order of strings: by their bytes.
pub open spec fn text_before(a: Seq<char>, b: Seq<char>) -> bool {
    bytes_before(encode_utf8(a), encode_utf8(b))
}

proof fn lemma_bytes_total(a: Seq<u8>, b: Seq<u8>)
    ensures
        bytes_before(a, b) || bytes_before(b, a) || a == b,
    decreases a.len(),
{
    if a.len() > 0 && b.len() > 0 && a[0] == b[0] {
        lemma_bytes_total(a.drop_first(), b.drop_first());
        if a.drop_first() == b.drop_first() {
            assert(a =~= seq![a[0]] + a.drop_first());
            assert(b =~= seq![b[0]] + b.drop_first());
        }
    } else if a.len() == 0 && b.len() == 0 {
        assert(a =~= b);
    }
}

proof fn lemma_bytes_irreflexive(a: Seq<u8>)
    ensures
        !bytes_before(a, a),
    decreases a.len(),
{
    if a.len() > 0 {
        lemma_bytes_irreflexive(a.drop_first());
    }
}

proof fn lemma_bytes_transitive(a: Seq<u8>, b: Seq<u8>, c: Seq<u8>)
    requires
        bytes_before(a, b),
        bytes_before(b, c),
    ensures
        bytes_before(a, c),
    decreases a.len(),
{
    if a.len() > 0 && b.len() > 0 && c.len() > 0 && a[0] == b[0] && b[0] == c[0] {
        lemma_bytes_transitive(a.drop_first(), b.drop_first(), c.drop_first());
    }
}

/// Whether `a` comes before `b`, as `str` values are ordered.
pub fn text_less(a: &str, b: &str) -> (r: bool)
    ensures
        r == text_before(a@, b@),
{
    let x = a.as_bytes();
    let y = b.as_bytes();
    let mut i: usize = 0;
    assert(x@.subrange(0, x@.len() as int) =~= x@);
    assert(y@.subrange(0, y@.len() as int) =~= y@);
    while i < x.len() && i < y.len()
        invariant
            i <= x@.len(),
            i <= y@.len(),
            x@ == encode_utf8(a@),
            y@ == encode_utf8(b@),
            text_before(a@, b@) == bytes_before(
                x@.subrange(i as int, x@.len() as int),
                y@.subrange(i as int, y@.len() as int),
            ),
        decreases x@.len() - i,
    {
        if x[i] < y[i] {
            return true;
        }
        if x[i] > y[i] {
            return false;
        }
        assert(x@.subrange(i as int, x@.len() as int).drop_first() =~= x@.subrange(
            i + 1,
            x@.len() as int,
        ));
        assert(y@.subrange(i as int, y@.len() as int).drop_first() =~= y@.subrange(
            i + 1,
            y@.len() as int,
        ));
        i += 1;
    }
    i < y.len()
}

/// Strings in their order; equal strings stay as they were.
pub struct ByText {
    pub texts: Vec<String>,
}

impl Ranking for ByText {
    open spec fn size(&self) -> nat {
        self.texts@.len()
    }

    open spec fn before(&self, i: int, j: int) -> bool {
        text_before(self.texts@[i]@, self.texts@[j]@) || (self.texts@[i]@ == self.texts@[j]@ && i
            < j)
    }

    proof fn lemma_total(&self, i: int, j: int) {
        lemma_bytes_total(encode_utf8(self.texts@[i]@), encode_utf8(self.texts@[j]@));
        crate::text::lemma_same_bytes(self.texts@[i]@, self.texts@[j]@);
    }

    proof fn lemma_irreflexive(&self, i: int) {
        lemma_bytes_irreflexive(encode_utf8(self.texts@[i]@));
    }

    proof fn lemma_transitive(&self, i: int, j: int, k: int) {
        let a = encode_utf8(self.texts@[i]@);
        let b = encode_utf8(self.texts@[j]@);
        let c = encode_utf8(self.texts@[k]@);
        if bytes_before(a, b) && bytes_before(b, c) {
            lemma_bytes_transitive(a, b, c);
        }
    }

    fn comes_before(&self, i: usize, j: usize) -> (r: bool) {
        text_less(self.texts[i].as_str(), self.texts[j].as_str()) || (crate::text::str_eq(
            self.texts[i].as_str(),
            self.texts[j].as_str(),
        ) && i < j)
    }
}

// ---------------------------------------------------------------------------------------------
// Laws
// ---------------------------------------------------------------------------------------------
/// Texts are ordered by the first byte in which they differ; one that another starts with comes
/// before it.
pub proof fn law_text_order(a: Seq<char>, b: Seq<char>, i: int)
    requires
        0 <= i <= encode_utf8(a).len(),
        i <= encode_utf8(b).len(),
        forall|k: int| 0 <= k < i ==> encode_utf8(a)[k] == encode_utf8(b)[k],
    ensures
        i < encode_utf8(a).len() && i < encode_utf8(b).len() && encode_utf8(a)[i] < encode_utf8(b)[i]
            ==> text_before(a, b) && !text_before(b, a),
        i == encode_utf8(a).len() && i < encode_utf8(b).len() ==> text_before(a, b) && !text_before(
            b,
            a,
        ),
{
    lemma_bytes_from(encode_utf8(a), encode_utf8(b), i);
    lemma_bytes_from(encode_utf8(b), encode_utf8(a), i);
}

/// A common start makes no difference to the order of bytes.
proof fn lemma_bytes_from(a: Seq<u8>, b: Seq<u8>, i: int)
    requires
        0 <= i <= a.len(),
        i <= b.len(),
        forall|k: int| 0 <= k < i ==> a[k] == b[k],
    ensures
        bytes_before(a, b) == bytes_before(a.skip(i), b.skip(i)),
    decreases i,
{
    if i == 0 {
        assert(a.skip(0) =~= a);
        assert(b.skip(0) =~= b);
    } else {
        let x = a.drop_first();
        let y = b.drop_first();
        assert forall|k: int| 0 <= k < i - 1 implies x[k] == y[k] by {
            assert(a[k + 1] == b[k + 1]);
        }
        lemma_bytes_from(x, y, i - 1);
        assert(x.skip(i - 1) =~= a.skip(i));
        assert(y.skip(i - 1) =~= b.skip(i));
    }
}

/// The best `n` are as many as there are, up to `n`, none twice, no lower score before a higher one,
/// equal ones in the order in which they stand, and nothing that was left out scores higher than
/// what was taken.
pub proof fn law_top_is_best(r: Seq<usize>, scores: Seq<u64>, n: int)
    requires
        is_top(r, scores, n),
        0 <= n,
    ensures
        r.len() <= n,
        r.len() <= scores.len(),
        r.len() == n || r.len() == scores.len(),
        forall|a: int, b: int|
            0 <= a < b < r.len() ==> scores[#[trigger] r[a] as int] >= scores[#[trigger] r[b] as int],
        forall|a: int, b: int|
            0 <= a < b < r.len() && scores[#[trigger] r[a] as int] == scores[#[trigger] r[b] as int]
                ==> r[a] < r[b],
        forall|a: int, x: usize|
            0 <= a < r.len() && x < scores.len() && !(#[trigger] r.contains(x))
                ==> scores[#[trigger] r[a] as int] >= scores[x as int],
        forall|x: usize| x < scores.len() && !(#[trigger] r.contains(x)) ==> r.len() == n,
{
    assert forall|x: usize| x < scores.len() && !(#[trigger] r.contains(x)) implies r.len() == n by {
        if r.len() != n {
            let more = r.push(x);
            assert forall|a: int, b: int| 0 <= a < b < more.len() implies more[a] != more[b] by {
                if b < r.len() {
                    assert(ranks_before(scores, r[a] as int, r[b] as int));
                } else {
                    assert(r.contains(r[a]));
                }
            }
            lemma_distinct_below(more, scores.len());
        }
    }
    assert forall|a: int, b: int| 0 <= a < b < r.len() implies scores[#[trigger] r[a] as int]
        >= scores[#[trigger] r[b] as int] by {
        assert(ranks_before(scores, r[a] as int, r[b] as int));
    }
    assert forall|a: int, b: int|
        0 <= a < b < r.len() && scores[#[trigger] r[a] as int] == scores[
        #[trigger] r[b] as int] implies r[a] < r[b] by {
        assert(ranks_before(scores, r[a] as int, r[b] as int));
    }
    assert forall|a: int, x: usize|
        0 <= a < r.len() && x < scores.len() && !(#[trigger] r.contains(x)) implies scores[
        #[trigger] r[a] as int] >= scores[x as int] by {
        assert(ranks_before(scores, r[a] as int, x as int));
    }
}

/// Different numbers below `n` are at most `n`.
proof fn lemma_distinct_below(s: Seq<usize>, n: nat)
    requires
        forall|a: int, b: int| 0 <= a < b < s.len() ==> s[a] != s[b],
        forall|a: int| 0 <= a < s.len() ==> s[a] < n,
    ensures
        s.len() <= n,
    decreases n,
{
    if s.len() > 0 {
        assert(s[0] < n);
        if exists|i: int| 0 <= i < s.len() && s[i] == n - 1 {
            let i = choose|i: int| 0 <= i < s.len() && s[i] == n - 1;
            let rest = s.remove(i);
            assert forall|a: int, b: int| 0 <= a < b < rest.len() implies rest[a] != rest[b] by {
                let x = if a < i {
                    a
                } else {
                    a + 1
                };
                let y = if b < i {
                    b
                } else {
                    b + 1
                };
                assert(rest[a] == s[x] && rest[b] == s[y] && x < y);
            }
            assert forall|a: int| 0 <= a < rest.len() implies rest[a] < n - 1 by {
                let x = if a < i {
                    a
                } else {
                    a + 1
                };
                assert(rest[a] == s[x]);
            }
            lemma_distinct_below(rest, (n - 1) as nat);
        } else {
            lemma_distinct_below(s, (n - 1) as nat);
        }
    }
}

/// `part` is what is left of `whole` when some of it is taken out: nothing is new in it and nothing
/// changes places.
pub open spec fn keeps_order<T>(part: Seq<T>, whole: Seq<T>) -> bool {
    exists|at: Seq<int>| #[trigger] stands_at(part, whole, at)
}

/// The places in `whole` at which the items of `part` stand, one behind the other.
pub open spec fn stands_at<T>(part: Seq<T>, whole: Seq<T>, at: Seq<int>) -> bool {
    &&& at.len() == part.len()
    &&& forall|k: int|
        0 <= k < at.len() ==> 0 <= #[trigger] at[k] < whole.len() && part[k] == whole[at[k]]
    &&& forall|k: int, l: int| 0 <= k < l < at.len() ==> #[trigger] at[k] < #[trigger] at[l]
}

/// Filtering keeps the order, every item for which the condition holds as often as it was there, and
/// no other.
pub proof fn lemma_filter_keeps<T>(s: Seq<T>, p: spec_fn(T) -> bool)
    ensures
        keeps_order(s.filter(p), s),
        forall|x: T| #[trigger]
            s.filter(p).to_multiset().count(x) == if p(x) {
                s.to_multiset().count(x)
            } else {
                0
            },
    decreases s.len(),
{
    broadcast use vstd::seq_lib::group_to_multiset_ensures;

    reveal(Seq::filter);
    if s.len() == 0 {
        assert(stands_at(s.filter(p), s, Seq::<int>::empty()));
        assert(s =~= Seq::<T>::empty());
        assert(s.filter(p) =~= Seq::<T>::empty());
        assert forall|x: T| s.filter(p).to_multiset().count(x) == 0 && s.to_multiset().count(x) == 0 by {
            assert(!s.contains(x));
        }
    } else {
        let t = s.drop_last();
        lemma_filter_keeps(t, p);
        let at = choose|at: Seq<int>| #[trigger] stands_at(t.filter(p), t, at);
        assert(s =~= t.push(s.last()));
        if p(s.last()) {
            assert(stands_at(s.filter(p), s, at.push(s.len() - 1)));
        } else {
            assert(stands_at(s.filter(p), s, at));
        }
    }
}

/// Reordering loses nothing and doubles nothing.
pub proof fn law_reordered_holds_the_same<T>(r: Seq<T>, s: Seq<T>)
    requires
        reordered(r, s),
    ensures
        r.len() == s.len(),
        r.to_multiset() == s.to_multiset(),
{
    let p = choose|p: Seq<usize>| #[trigger]
        arranges(p, 0, s.len() as int) && forall|k: int|
            0 <= k < r.len() ==> #[trigger] r[k] == s[p[k] as int];
    let q = Seq::new(p.len(), |k: int| p[k] as int);
    assert forall|a: int, b: int| 0 <= a < b < q.len() implies q[a] != q[b] by {
        assert(p[a] != p[b]);
    }
    lemma_same_counts(r, s, q);
}

proof fn lemma_same_counts<T>(r: Seq<T>, s: Seq<T>, p: Seq<int>)
    requires
        r.len() == s.len(),
        p.len() == s.len(),
        forall|k: int| 0 <= k < p.len() ==> 0 <= #[trigger] p[k] < s.len(),
        forall|a: int, b: int| 0 <= a < b < p.len() ==> p[a] != p[b],
        forall|k: int| 0 <= k < p.len() ==> r[k] == s[#[trigger] p[k]],
    ensures
        r.to_multiset() == s.to_multiset(),
    decreases s.len(),
{
    broadcast use vstd::seq_lib::group_to_multiset_ensures;

    if s.len() == 0 {
        assert(r =~= s);
    } else {
        let n = p.len() - 1;
        let x = p[n];
        let rest = s.remove(x);
        let q = Seq::new(
            n as nat,
            |k: int|
                if p[k] < x {
                    p[k]
                } else {
                    p[k] - 1
                },
        );
        assert forall|k: int| 0 <= k < q.len() implies 0 <= #[trigger] q[k] < rest.len()
            && r.drop_last()[k] == rest[q[k]] by {
            assert(p[k] != p[n]);
            assert(r[k] == s[p[k]]);
        }
        assert forall|a: int, b: int| 0 <= a < b < q.len() implies q[a] != q[b] by {
            assert(p[a] != p[b]);
            assert(p[a] != p[n] && p[b] != p[n]);
        }
        lemma_same_counts(r.drop_last(), rest, q);
        assert(r =~= r.drop_last().push(r.last()));
        assert(r.last() == s[x]);
        assert(rest.to_multiset() == s.to_multiset().remove(s[x]));
        assert(s.contains(s[x]));
        assert(s.to_multiset().contains(s[x]));
        assert(rest.to_multiset().insert(s[x]) =~= s.to_multiset());
    }
}

} // verus!
