//! How close to each other the terms of a query stand in a file.

use vstd::prelude::*;

verus! {

broadcast use vstd::seq::group_seq_axioms;

/// The distance of two lines.
pub open spec fn distance(a: int, b: int) -> int {
    if a > b {
        a - b
    } else {
        b - a
    }
}

/// The smaller of two numbers.
pub open spec fn least(a: int, b: int) -> int {
    if a < b {
        a
    } else {
        b
    }
}

/// The least distance of the line `x` to a line of `b`, or `cap` where none is under it.
pub open spec fn gap_to(x: int, b: Seq<int>, cap: int) -> int
    decreases b.len(),
{
    if b.len() == 0 {
        cap
    } else {
        least(gap_to(x, b.drop_last(), cap), distance(x, b.last()))
    }
}

/// The least distance of a line of `a` to a line of `b`, or `cap` where none is under it.
pub open spec fn gap(a: Seq<int>, b: Seq<int>, cap: int) -> int
    decreases a.len(),
{
    if a.len() == 0 {
        cap
    } else {
        least(gap(a.drop_last(), b, cap), gap_to(a.last(), b, cap))
    }
}

/// The gap between two sets of lines is no larger than the distance of any two lines of theirs, and
/// is such a distance unless it is the cap.
pub proof fn law_gap_least(a: Seq<int>, b: Seq<int>, cap: int)
    ensures
        gap(a, b, cap) <= cap,
        forall|i: int, j: int|
            0 <= i < a.len() && 0 <= j < b.len() ==> gap(a, b, cap) <= distance(
                #[trigger] a[i],
                #[trigger] b[j],
            ),
        gap(a, b, cap) == cap || exists|i: int, j: int|
            0 <= i < a.len() && 0 <= j < b.len() && gap(a, b, cap) == distance(
                #[trigger] a[i],
                #[trigger] b[j],
            ),
    decreases a.len(),
{
    if a.len() > 0 {
        let c = a.drop_last();
        law_gap_least(c, b, cap);
        lemma_gap_to(a.last(), b, cap);
        assert forall|i: int, j: int| 0 <= i < a.len() && 0 <= j < b.len() implies gap(a, b, cap)
            <= distance(#[trigger] a[i], #[trigger] b[j]) by {
            if i < c.len() {
                assert(c[i] == a[i]);
                assert(gap(c, b, cap) <= distance(c[i], b[j]));
            }
        }
        if gap(a, b, cap) != cap {
            if gap(a, b, cap) == gap(c, b, cap) {
                let (i, j) = choose|i: int, j: int|
                    0 <= i < c.len() && 0 <= j < b.len() && gap(c, b, cap) == distance(
                        #[trigger] c[i],
                        #[trigger] b[j],
                    );
                assert(a[i] == c[i]);
            } else {
                let j = choose|j: int|
                    0 <= j < b.len() && gap_to(a.last(), b, cap) == distance(
                        a.last(),
                        #[trigger] b[j],
                    );
                assert(a[a.len() - 1] == a.last());
                assert(gap(a, b, cap) == distance(a[a.len() - 1], b[j]));
            }
        }
    }
}

/// What holds of the gap between two sets holds of the gap between a line and a set.
proof fn lemma_gap_to(x: int, b: Seq<int>, cap: int)
    ensures
        gap_to(x, b, cap) <= cap,
        forall|j: int| 0 <= j < b.len() ==> gap_to(x, b, cap) <= distance(x, #[trigger] b[j]),
        gap_to(x, b, cap) == cap || exists|j: int|
            0 <= j < b.len() && gap_to(x, b, cap) == distance(x, #[trigger] b[j]),
    decreases b.len(),
{
    if b.len() > 0 {
        let c = b.drop_last();
        lemma_gap_to(x, c, cap);
        assert forall|j: int| 0 <= j < b.len() implies gap_to(x, b, cap) <= distance(
            x,
            #[trigger] b[j],
        ) by {
            if j < c.len() {
                assert(c[j] == b[j]);
            }
        }
        if gap_to(x, b, cap) != cap {
            if gap_to(x, b, cap) == gap_to(x, c, cap) {
                let j = choose|j: int|
                    0 <= j < c.len() && gap_to(x, c, cap) == distance(x, #[trigger] c[j]);
                assert(b[j] == c[j]);
            } else {
                assert(gap_to(x, b, cap) == distance(x, b[b.len() - 1]));
            }
        }
    }
}

/// Which of two sets comes first makes no difference to their gap.
pub proof fn law_gap_symmetric(a: Seq<int>, b: Seq<int>, cap: int)
    ensures
        gap(a, b, cap) == gap(b, a, cap),
{
    law_gap_least(a, b, cap);
    law_gap_least(b, a, cap);
    lemma_gap_at_most(a, b, cap);
    lemma_gap_at_most(b, a, cap);
}

/// The gap one way round is no larger than the other.
proof fn lemma_gap_at_most(a: Seq<int>, b: Seq<int>, cap: int)
    ensures
        gap(a, b, cap) <= gap(b, a, cap),
{
    law_gap_least(a, b, cap);
    law_gap_least(b, a, cap);
    if gap(b, a, cap) != cap {
        let (i, j) = choose|i: int, j: int|
            0 <= i < b.len() && 0 <= j < a.len() && gap(b, a, cap) == distance(
                #[trigger] b[i],
                #[trigger] a[j],
            );
        assert(gap(a, b, cap) <= distance(a[j], b[i]));
    }
}

// ---------------------------------------------------------------------------------------------
// The bonus of each pair of terms
// ---------------------------------------------------------------------------------------------
/// Line numbers as integers.
pub open spec fn numbers(a: Seq<usize>) -> Seq<int> {
    a.map_values(|x: usize| x as int)
}

/// What two terms gain by standing close: one for each line that the gap between them falls short of
/// the one behind `max_gap`; nothing where it is over `max_gap`.
pub open spec fn gain(a: Seq<int>, b: Seq<int>, max_gap: int, cap: int) -> int {
    if gap(a, b, cap) <= max_gap {
        max_gap - gap(a, b, cap) + 1
    } else {
        0
    }
}

/// What the term `i` gains with each of the terms from `j` on.
pub open spec fn gains_with(sets: Seq<Seq<int>>, i: int, j: int, max_gap: int, cap: int) -> Seq<int>
    decreases sets.len() - j,
{
    if 0 <= j < sets.len() {
        seq![gain(sets[i], sets[j], max_gap, cap)] + gains_with(sets, i, j + 1, max_gap, cap)
    } else {
        Seq::empty()
    }
}

/// What each term from `i` on gains with each that follows it.
pub open spec fn gains_from(sets: Seq<Seq<int>>, i: int, max_gap: int, cap: int) -> Seq<int>
    decreases sets.len() - i,
{
    if 0 <= i < sets.len() {
        gains_with(sets, i, i + 1, max_gap, cap) + gains_from(sets, i + 1, max_gap, cap)
    } else {
        Seq::empty()
    }
}

/// Neither the order of the lines of a term nor lines that it lists twice make a difference to a gap.
pub proof fn law_gap_of_line_sets(a: Seq<int>, b: Seq<int>, c: Seq<int>, d: Seq<int>, cap: int)
    requires
        forall|x: int| a.contains(x) <==> c.contains(x),
        forall|x: int| b.contains(x) <==> d.contains(x),
    ensures
        gap(a, b, cap) == gap(c, d, cap),
{
    lemma_gap_of_more_lines(a, b, c, d, cap);
    lemma_gap_of_more_lines(c, d, a, b, cap);
}

/// With more lines, the gap is no larger.
proof fn lemma_gap_of_more_lines(a: Seq<int>, b: Seq<int>, c: Seq<int>, d: Seq<int>, cap: int)
    requires
        forall|x: int| c.contains(x) ==> a.contains(x),
        forall|x: int| d.contains(x) ==> b.contains(x),
    ensures
        gap(a, b, cap) <= gap(c, d, cap),
{
    law_gap_least(a, b, cap);
    law_gap_least(c, d, cap);
    if gap(c, d, cap) != cap {
        let (i, j) = choose|i: int, j: int|
            0 <= i < c.len() && 0 <= j < d.len() && gap(c, d, cap) == distance(
                #[trigger] c[i],
                #[trigger] d[j],
            );
        assert(c.contains(c[i]));
        assert(d.contains(d[j]));
        let x = choose|x: int| 0 <= x < a.len() && a[x] == c[i];
        let y = choose|y: int| 0 <= y < b.len() && b[y] == d[j];
        assert(gap(a, b, cap) <= distance(a[x], b[y]));
    }
}

/// Some line of `a` is within `max_gap` lines of a line of `b`.
pub open spec fn near(a: Seq<int>, b: Seq<int>, max_gap: int) -> bool {
    exists|i: int, j: int|
        0 <= i < a.len() && 0 <= j < b.len() && distance(#[trigger] a[i], #[trigger] b[j])
            <= max_gap
}

/// Two different terms from `i` on stand within `max_gap` lines of each other.
pub open spec fn some_near(sets: Seq<Seq<int>>, i: int, max_gap: int) -> bool {
    exists|a: int, b: int|
        i <= a < b < sets.len() && near(#[trigger] sets[a], #[trigger] sets[b], max_gap)
}

/// Something was gained.
pub open spec fn some_gain(gains: Seq<int>) -> bool {
    exists|k: int| 0 <= k < gains.len() && #[trigger] gains[k] > 0
}

/// No gain is negative, none is larger than `most`.
pub open spec fn gains_within(gains: Seq<int>, most: int) -> bool {
    forall|k: int| 0 <= k < gains.len() ==> 0 <= #[trigger] gains[k] <= most
}

/// The terms of a query gain something exactly where two different ones stand within `max_gap` lines
/// of each other, and no two gain more than `max_gap` and one.
pub proof fn law_gains_of_near_terms(sets: Seq<Seq<int>>, max_gap: int, cap: int)
    requires
        0 <= max_gap < cap,
    ensures
        some_gain(gains_from(sets, 0, max_gap, cap)) <==> some_near(sets, 0, max_gap),
        gains_within(gains_from(sets, 0, max_gap, cap), max_gap + 1),
{
    lemma_gains_from(sets, 0, max_gap, cap);
}

/// What two terms gain.
proof fn lemma_gain(a: Seq<int>, b: Seq<int>, max_gap: int, cap: int)
    requires
        0 <= max_gap < cap,
    ensures
        gain(a, b, max_gap, cap) > 0 <==> near(a, b, max_gap),
        0 <= gain(a, b, max_gap, cap) <= max_gap + 1,
{
    law_gap_least(a, b, cap);
    if near(a, b, max_gap) {
        let (i, j) = choose|i: int, j: int|
            0 <= i < a.len() && 0 <= j < b.len() && distance(#[trigger] a[i], #[trigger] b[j])
                <= max_gap;
        assert(gap(a, b, cap) <= distance(a[i], b[j]));
    }
}

/// What a term gains with those from `j` on.
proof fn lemma_gains_with(sets: Seq<Seq<int>>, i: int, j: int, max_gap: int, cap: int)
    requires
        0 <= max_gap < cap,
        0 <= j,
    ensures
        some_gain(gains_with(sets, i, j, max_gap, cap)) <==> exists|b: int|
            j <= b < sets.len() && near(sets[i], #[trigger] sets[b], max_gap),
        gains_within(gains_with(sets, i, j, max_gap, cap), max_gap + 1),
    decreases sets.len() - j,
{
    let all = gains_with(sets, i, j, max_gap, cap);
    if j < sets.len() {
        let rest = gains_with(sets, i, j + 1, max_gap, cap);
        let x = gain(sets[i], sets[j], max_gap, cap);
        lemma_gain(sets[i], sets[j], max_gap, cap);
        lemma_gains_with(sets, i, j + 1, max_gap, cap);
        lemma_gains_joined(seq![x], rest, max_gap + 1);
        assert(seq![x][0] == x);
        assert(some_gain(seq![x]) <==> x > 0) by {
            if some_gain(seq![x]) {
                let k = choose|k: int| 0 <= k < seq![x].len() && #[trigger] seq![x][k] > 0;
            }
        }
        assert(all == seq![x] + rest);
    }
}

/// What the terms from `i` on gain.
proof fn lemma_gains_from(sets: Seq<Seq<int>>, i: int, max_gap: int, cap: int)
    requires
        0 <= max_gap < cap,
        0 <= i,
    ensures
        some_gain(gains_from(sets, i, max_gap, cap)) <==> some_near(sets, i, max_gap),
        gains_within(gains_from(sets, i, max_gap, cap), max_gap + 1),
    decreases sets.len() - i,
{
    if i < sets.len() {
        let first = gains_with(sets, i, i + 1, max_gap, cap);
        let rest = gains_from(sets, i + 1, max_gap, cap);
        lemma_gains_with(sets, i, i + 1, max_gap, cap);
        lemma_gains_from(sets, i + 1, max_gap, cap);
        lemma_gains_joined(first, rest, max_gap + 1);
        if some_gain(first) {
            let b = choose|b: int|
                i + 1 <= b < sets.len() && near(sets[i], #[trigger] sets[b], max_gap);
            assert(near(sets[i], sets[b], max_gap));
        }
        if some_near(sets, i + 1, max_gap) {
            let (a, b) = choose|a: int, b: int|
                i + 1 <= a < b < sets.len() && near(
                    #[trigger] sets[a],
                    #[trigger] sets[b],
                    max_gap,
                );
            assert(near(sets[a], sets[b], max_gap));
        }
        if some_near(sets, i, max_gap) {
            let (a, b) = choose|a: int, b: int|
                i <= a < b < sets.len() && near(#[trigger] sets[a], #[trigger] sets[b], max_gap);
            if a == i {
                assert(near(sets[i], sets[b], max_gap));
            } else {
                assert(some_near(sets, i + 1, max_gap));
            }
        }
    }
}

/// What holds of gains that stand behind each other.
proof fn lemma_gains_joined(a: Seq<int>, b: Seq<int>, most: int)
    ensures
        some_gain(a + b) <==> some_gain(a) || some_gain(b),
        gains_within(a, most) && gains_within(b, most) ==> gains_within(a + b, most),
{
    let all = a + b;
    if some_gain(a) {
        let k = choose|k: int| 0 <= k < a.len() && #[trigger] a[k] > 0;
        assert(all[k] == a[k]);
    }
    if some_gain(b) {
        let k = choose|k: int| 0 <= k < b.len() && #[trigger] b[k] > 0;
        assert(all[a.len() + k] == b[k]);
    }
    if some_gain(all) {
        let k = choose|k: int| 0 <= k < all.len() && #[trigger] all[k] > 0;
        if k < a.len() {
            assert(a[k] > 0);
        } else {
            assert(b[k - a.len()] > 0);
        }
    }
}

// ---------------------------------------------------------------------------------------------
// The order of the terms
// ---------------------------------------------------------------------------------------------
/// The sum of a weight over some sets of lines.
spec fn total(s: Seq<Seq<int>>, g: spec_fn(Seq<int>) -> int) -> int
    decreases s.len(),
{
    if s.len() == 0 {
        0
    } else {
        g(s[0]) + total(s.drop_first(), g)
    }
}

/// 1 if two terms gain `v`, else 0.
spec fn hit(a: Seq<int>, b: Seq<int>, max_gap: int, cap: int, v: int) -> int {
    if gain(a, b, max_gap, cap) == v {
        1
    } else {
        0
    }
}

/// Weights that agree on all sets have the same sum.
proof fn lemma_total_same(
    s: Seq<Seq<int>>,
    g: spec_fn(Seq<int>) -> int,
    h: spec_fn(Seq<int>) -> int,
)
    requires
        forall|x: Seq<int>| #[trigger] g(x) == h(x),
    ensures
        total(s, g) == total(s, h),
    decreases s.len(),
{
    if s.len() > 0 {
        assert(g(s[0]) == h(s[0]));
        lemma_total_same(s.drop_first(), g, h);
    }
}

/// The sum of a sum of weights.
proof fn lemma_total_sum(
    s: Seq<Seq<int>>,
    f: spec_fn(Seq<int>) -> int,
    g: spec_fn(Seq<int>) -> int,
    h: spec_fn(Seq<int>) -> int,
)
    requires
        forall|x: Seq<int>| #[trigger] f(x) == g(x) + h(x),
    ensures
        total(s, f) == total(s, g) + total(s, h),
    decreases s.len(),
{
    if s.len() > 0 {
        assert(f(s[0]) == g(s[0]) + h(s[0]));
        lemma_total_sum(s.drop_first(), f, g, h);
    }
}

/// The order of the sets makes no difference to a sum over them.
proof fn lemma_total_reordered(
    s: Seq<Seq<int>>,
    t: Seq<Seq<int>>,
    g: spec_fn(Seq<int>) -> int,
)
    requires
        s.to_multiset() == t.to_multiset(),
    ensures
        total(s, g) == total(t, g),
{
    let f = |x: Seq<int>, n: int| g(x) + n;
    lemma_total_folds(s, g);
    lemma_total_folds(t, g);
    s.lemma_fold_right_alt(f, 0);
    t.lemma_fold_right_alt(f, 0);
    vstd::seq_lib::lemma_fold_right_permutation(s, t, f, 0);
}

/// A sum over sets is a fold.
proof fn lemma_total_folds(s: Seq<Seq<int>>, g: spec_fn(Seq<int>) -> int)
    ensures
        total(s, g) == s.fold_right_alt(|x: Seq<int>, n: int| g(x) + n, 0),
    decreases s.len(),
{
    reveal_with_fuel(Seq::fold_right_alt, 2);
    if s.len() > 0 {
        assert(s.subrange(1, s.len() as int) =~= s.drop_first());
        lemma_total_folds(s.drop_first(), g);
    }
}

/// How often a term gains `v` with those from `j` on.
proof fn lemma_count_with(
    sets: Seq<Seq<int>>,
    i: int,
    j: int,
    max_gap: int,
    cap: int,
    v: int,
)
    requires
        0 <= j <= sets.len(),
    ensures
        gains_with(sets, i, j, max_gap, cap).to_multiset().count(v) == total(
            sets.skip(j),
            |y: Seq<int>| hit(sets[i], y, max_gap, cap, v),
        ),
    decreases sets.len() - j,
{
    broadcast use vstd::seq_lib::group_to_multiset_ensures;

    let g = |y: Seq<int>| hit(sets[i], y, max_gap, cap, v);
    if j < sets.len() {
        let x = gain(sets[i], sets[j], max_gap, cap);
        let rest = gains_with(sets, i, j + 1, max_gap, cap);
        lemma_count_with(sets, i, j + 1, max_gap, cap, v);
        lemma_count_joined(seq![x], rest, v);
        lemma_count_one(x, v);
        assert(sets.skip(j).drop_first() =~= sets.skip(j + 1));
        assert(sets.skip(j)[0] == sets[j]);
    }
}

/// How often a number stands among one.
proof fn lemma_count_one(x: int, v: int)
    ensures
        seq![x].to_multiset().count(v) == if x == v {
            1nat
        } else {
            0nat
        },
{
    broadcast use vstd::seq_lib::group_to_multiset_ensures;

    let none = Seq::<int>::empty();
    assert(seq![x] =~= none.push(x));
    assert(none.push(x).to_multiset() =~= none.to_multiset().insert(x));
}

/// How often a number stands among numbers that stand behind each other.
proof fn lemma_count_joined(a: Seq<int>, b: Seq<int>, v: int)
    ensures
        (a + b).to_multiset().count(v) == a.to_multiset().count(v) + b.to_multiset().count(v),
{
    vstd::seq_lib::lemma_multiset_commutative(a, b);
}

/// How often a term gains `v` with any of `s`.
spec fn row(x: Seq<int>, s: Seq<Seq<int>>, max_gap: int, cap: int, v: int) -> int {
    total(s, |y: Seq<int>| hit(x, y, max_gap, cap, v))
}

/// How often any of `s` gains `v` with any of `t`.
spec fn pairs(s: Seq<Seq<int>>, t: Seq<Seq<int>>, max_gap: int, cap: int, v: int) -> int {
    total(s, |x: Seq<int>| row(x, t, max_gap, cap, v))
}

/// How often any of `s` gains `v` with itself.
spec fn selves(s: Seq<Seq<int>>, max_gap: int, cap: int, v: int) -> int {
    total(s, |x: Seq<int>| hit(x, x, max_gap, cap, v))
}

/// Twice the number of pairs that gain `v` is the number of those in either order, without those of
/// a term with itself.
proof fn lemma_count_from(sets: Seq<Seq<int>>, i: int, max_gap: int, cap: int, v: int)
    requires
        0 <= i <= sets.len(),
    ensures
        2 * gains_from(sets, i, max_gap, cap).to_multiset().count(v) == pairs(
            sets.skip(i),
            sets.skip(i),
            max_gap,
            cap,
            v,
        ) - selves(sets.skip(i), max_gap, cap, v),
    decreases sets.len() - i,
{
    broadcast use vstd::seq_lib::group_to_multiset_ensures;

    let s = sets.skip(i);
    if i < sets.len() {
        let x = sets[i];
        let r = sets.skip(i + 1);
        assert(s.drop_first() =~= r);
        assert(s[0] == x);
        let first = gains_with(sets, i, i + 1, max_gap, cap);
        let rest = gains_from(sets, i + 1, max_gap, cap);
        lemma_count_from(sets, i + 1, max_gap, cap, v);
        lemma_count_with(sets, i, i + 1, max_gap, cap, v);
        lemma_count_joined(first, rest, v);
        let to_all = |y: Seq<int>| row(y, s, max_gap, cap, v);
        let to_rest = |y: Seq<int>| row(y, r, max_gap, cap, v);
        let to_x = |y: Seq<int>| hit(y, x, max_gap, cap, v);
        let from_x = |y: Seq<int>| hit(x, y, max_gap, cap, v);
        assert forall|y: Seq<int>| #[trigger] to_all(y) == to_x(y) + to_rest(y) by {}
        lemma_total_sum(r, to_all, to_x, to_rest);
        assert forall|y: Seq<int>| #[trigger] to_x(y) == from_x(y) by {
            law_gap_symmetric(x, y, cap);
        }
        lemma_total_same(r, to_x, from_x);
        assert(row(x, r, max_gap, cap, v) == total(r, from_x));
        assert(pairs(s, s, max_gap, cap, v) == to_all(x) + total(r, to_all));
        assert(pairs(r, r, max_gap, cap, v) == total(r, to_rest));
    } else {
        assert(s =~= Seq::<Seq<int>>::empty());
        assert(gains_from(sets, i, max_gap, cap) =~= Seq::<int>::empty());
    }
}

/// The order of the terms makes no difference to what they gain: the gains are the same, each as
/// often.
pub proof fn law_gains_reordered(
    sets: Seq<Seq<int>>,
    others: Seq<Seq<int>>,
    max_gap: int,
    cap: int,
)
    requires
        sets.to_multiset() == others.to_multiset(),
    ensures
        gains_from(sets, 0, max_gap, cap).to_multiset() == gains_from(
            others,
            0,
            max_gap,
            cap,
        ).to_multiset(),
{
    let a = gains_from(sets, 0, max_gap, cap).to_multiset();
    let b = gains_from(others, 0, max_gap, cap).to_multiset();
    assert forall|v: int| #[trigger] a.count(v) == b.count(v) by {
        lemma_count_from(sets, 0, max_gap, cap, v);
        lemma_count_from(others, 0, max_gap, cap, v);
        assert(sets.skip(0) =~= sets);
        assert(others.skip(0) =~= others);
        let to_sets = |x: Seq<int>| row(x, sets, max_gap, cap, v);
        let to_others = |x: Seq<int>| row(x, others, max_gap, cap, v);
        assert forall|x: Seq<int>| #[trigger] to_sets(x) == to_others(x) by {
            lemma_total_reordered(sets, others, |y: Seq<int>| hit(x, y, max_gap, cap, v));
        }
        lemma_total_same(sets, to_sets, to_others);
        lemma_total_reordered(sets, others, to_others);
        lemma_total_reordered(sets, others, |x: Seq<int>| hit(x, x, max_gap, cap, v));
    }
    assert(a =~= b);
}

/// The lines of each term as integers.
pub open spec fn line_numbers(sets: Seq<&[usize]>) -> Seq<Seq<int>> {
    sets.map_values(|s: &[usize]| numbers(s@))
}

/// No two different terms share a line.
pub open spec fn all_apart(sets: Seq<Seq<int>>) -> bool {
    forall|i: int, j: int|
        0 <= i < j < sets.len() ==> gap(#[trigger] sets[i], #[trigger] sets[j], usize::MAX as int)
            > 0
}

/// The gap between two sets of lines, or the largest number where one of them is empty.
fn gap_between(a: &[usize], b: &[usize]) -> (d: usize)
    ensures
        d == gap(numbers(a@), numbers(b@), usize::MAX as int),
{
    let mut d: usize = usize::MAX;
    let ghost x = numbers(a@);
    let ghost y = numbers(b@);
    let ghost cap = usize::MAX as int;
    let mut i: usize = 0;
    while i < a.len()
        invariant
            i <= a@.len(),
            x == numbers(a@),
            y == numbers(b@),
            cap == usize::MAX,
            d == gap(x.take(i as int), y, cap),
        decreases a@.len() - i,
    {
        let mut e: usize = usize::MAX;
        let mut j: usize = 0;
        while j < b.len()
            invariant
                i < a@.len(),
                j <= b@.len(),
                x == numbers(a@),
                y == numbers(b@),
                cap == usize::MAX,
                e == gap_to(x[i as int], y.take(j as int), cap),
            decreases b@.len() - j,
        {
            assert(y.take(j + 1).drop_last() =~= y.take(j as int));
            let dist: usize = if a[i] > b[j] {
                a[i] - b[j]
            } else {
                b[j] - a[i]
            };
            if dist < e {
                e = dist;
            }
            j += 1;
        }
        assert(y.take(j as int) =~= y);
        assert(x.take(i + 1).drop_last() =~= x.take(i as int));
        if e < d {
            d = e;
        }
        i += 1;
    }
    assert(x.take(i as int) =~= x);
    d
}

/// What the terms of a query gain by standing close to each other in a file: one number for each
/// pair of terms, in order. The bonus of the file is half the average of these numbers, each
/// divided by `max_gap`; it is zero where there are no pairs.
pub fn proximity_bonus(line_sets: &[&[usize]], max_gap: usize) -> (gains: Vec<usize>)
    requires
        max_gap == usize::MAX ==> all_apart(line_numbers(line_sets@)),
    ensures
        gains@.map_values(|g: usize| g as int) == gains_from(
            line_numbers(line_sets@),
            0,
            max_gap as int,
            usize::MAX as int,
        ),
{
    let mut gains: Vec<usize> = Vec::new();
    let ghost sets = line_numbers(line_sets@);
    let ghost cap = usize::MAX as int;
    let ghost all = gains_from(sets, 0, max_gap as int, cap);
    let n: usize = line_sets.len();
    let mut i: usize = 0;
    assert(ints(gains@) + all =~= all);
    while i < n
        invariant
            i <= n,
            n == line_sets@.len(),
            max_gap == usize::MAX ==> all_apart(sets),
            sets == line_numbers(line_sets@),
            cap == usize::MAX,
            ints(gains@) + gains_from(sets, i as int, max_gap as int, cap) == all,
        decreases n - i,
    {
        let ghost rest = gains_from(sets, i + 1, max_gap as int, cap);
        let mut j: usize = i + 1;
        assert(ints(gains@) + (gains_with(sets, i as int, j as int, max_gap as int, cap) + rest)
            =~= all);
        while j < n
            invariant
                i < j <= n,
                n == line_sets@.len(),
                max_gap == usize::MAX ==> all_apart(sets),
                sets == line_numbers(line_sets@),
                cap == usize::MAX,
                ints(gains@) + (gains_with(sets, i as int, j as int, max_gap as int, cap) + rest)
                    == all,
            decreases n - j,
        {
            let d = gap_between(line_sets[i], line_sets[j]);
            let ghost before = gains@;
            proof {
                assert(sets[i as int] == numbers(line_sets@[i as int]@));
                assert(sets[j as int] == numbers(line_sets@[j as int]@));
            }
            let g: usize = if d <= max_gap {
                max_gap - d + 1
            } else {
                0
            };
            proof {
                assert(g == gain(sets[i as int], sets[j as int], max_gap as int, cap));
            }
            gains.push(g);
            proof {
                assert(ints(gains@) =~= ints(before).push(g as int));
                assert(ints(gains@) + (gains_with(
                    sets,
                    i as int,
                    j + 1,
                    max_gap as int,
                    cap,
                ) + rest) =~= ints(before) + (gains_with(
                    sets,
                    i as int,
                    j as int,
                    max_gap as int,
                    cap,
                ) + rest));
            }
            j += 1;
        }
        assert(ints(gains@) + (gains_with(sets, i as int, j as int, max_gap as int, cap) + rest)
            =~= ints(gains@) + rest);
        i += 1;
    }
    assert(ints(gains@) + gains_from(sets, i as int, max_gap as int, cap) =~= ints(gains@));
    gains
}

/// The gains as integers.
spec fn ints(gains: Seq<usize>) -> Seq<int> {
    gains.map_values(|g: usize| g as int)
}

// ---------------------------------------------------------------------------------------------
// The closest pair
// ---------------------------------------------------------------------------------------------
/// The lines of one term as integers.
pub open spec fn lines_at(a: Seq<i32>) -> Seq<int> {
    a.map_values(|x: i32| x as int)
}

/// The least gap between the lines of the term `i` and those of a term from `j` on.
pub open spec fn least_with(sets: Seq<Vec<i32>>, i: int, j: int) -> int
    decreases sets.len() - j,
{
    if 0 <= j < sets.len() {
        least(
            gap(lines_at(sets[i]@), lines_at(sets[j]@), i32::MAX as int),
            least_with(sets, i, j + 1),
        )
    } else {
        i32::MAX as int
    }
}

/// The least gap between the lines of two different terms from `i` on.
pub open spec fn least_from(sets: Seq<Vec<i32>>, i: int) -> int
    decreases sets.len() - i,
{
    if 0 <= i < sets.len() {
        least(least_with(sets, i, i + 1), least_from(sets, i + 1))
    } else {
        i32::MAX as int
    }
}

/// No two lines are further apart than a number can tell.
pub open spec fn measurable(a: Seq<i32>, b: Seq<i32>) -> bool {
    forall|k: int, l: int|
        0 <= k < a.len() && 0 <= l < b.len() ==> distance(#[trigger] a[k] as int, #[trigger] b[l] as int)
            <= i32::MAX
}

/// No two lines of different terms are further apart than a number can tell.
pub open spec fn all_measurable(sets: Seq<Vec<i32>>) -> bool {
    forall|i: int, j: int|
        0 <= i < j < sets.len() ==> measurable((#[trigger] sets[i])@, (#[trigger] sets[j])@)
}

/// What the file gains whose terms have these lines, if two terms are near enough.
pub open spec fn nearness(sets: Seq<Vec<i32>>, max_gap: i32) -> Option<i32> {
    if sets.len() >= 2 && least_from(sets, 0) <= max_gap {
        Some((max_gap - least_from(sets, 0) + 1) as i32)
    } else {
        None
    }
}

/// What a file gains by two terms of the query standing within `max_gap` lines of each other: one
/// for each line that their distance falls short of the one behind `max_gap`. The file is then
/// weighed by 1 and half the share of the gain in `max_gap`.
pub fn proximity_mult(line_sets: &Vec<Vec<i32>>, max_gap: i32) -> (r: Option<i32>)
    requires
        all_measurable(line_sets@),
        max_gap < i32::MAX || least_from(line_sets@, 0) > 0,
    ensures
        r == nearness(line_sets@, max_gap),
{
    let n: usize = line_sets.len();
    let mut d: i32 = i32::MAX;
    if n < 2 {
        return None;
    }
    let mut i: usize = 0;
    while i < n
        invariant
            i <= n,
            n == line_sets@.len(),
            all_measurable(line_sets@),
            0 <= d,
            least(d as int, least_from(line_sets@, i as int)) == least_from(line_sets@, 0),
        decreases n - i,
    {
        let ghost rest = least_from(line_sets@, i + 1);
        let mut j: usize = i + 1;
        while j < n
            invariant
                i < j <= n,
                n == line_sets@.len(),
                all_measurable(line_sets@),
                0 <= d,
                least(d as int, least(least_with(line_sets@, i as int, j as int), rest))
                    == least_from(line_sets@, 0),
            decreases n - j,
        {
            assert(measurable(line_sets@[i as int]@, line_sets@[j as int]@));
            let e = closest(&line_sets[i], &line_sets[j]);
            if e < d {
                d = e;
            }
            j += 1;
        }
        i += 1;
    }
    if d <= max_gap {
        Some(max_gap - d + 1)
    } else {
        None
    }
}

/// The gap between two sets of lines.
fn closest(a: &Vec<i32>, b: &Vec<i32>) -> (d: i32)
    requires
        measurable(a@, b@),
    ensures
        d == gap(lines_at(a@), lines_at(b@), i32::MAX as int),
        0 <= d,
{
    let mut d: i32 = i32::MAX;
    let ghost x = lines_at(a@);
    let ghost y = lines_at(b@);
    let ghost cap = i32::MAX as int;
    let mut i: usize = 0;
    while i < a.len()
        invariant
            i <= a@.len(),
            measurable(a@, b@),
            x == lines_at(a@),
            y == lines_at(b@),
            cap == i32::MAX,
            0 <= d,
            d == gap(x.take(i as int), y, cap),
        decreases a@.len() - i,
    {
        let mut e: i32 = i32::MAX;
        let mut j: usize = 0;
        while j < b.len()
            invariant
                i < a@.len(),
                j <= b@.len(),
                measurable(a@, b@),
                x == lines_at(a@),
                y == lines_at(b@),
                cap == i32::MAX,
                0 <= e,
                e == gap_to(x[i as int], y.take(j as int), cap),
            decreases b@.len() - j,
        {
            assert(y.take(j + 1).drop_last() =~= y.take(j as int));
            assert(distance(a@[i as int] as int, b@[j as int] as int) <= i32::MAX);
            let dist: i32 = if a[i] > b[j] {
                a[i] - b[j]
            } else {
                b[j] - a[i]
            };
            if dist < e {
                e = dist;
            }
            j += 1;
        }
        assert(y.take(j as int) =~= y);
        assert(x.take(i + 1).drop_last() =~= x.take(i as int));
        if e < d {
            d = e;
        }
        i += 1;
    }
    assert(x.take(i as int) =~= x);
    d
}

/// What two terms gain by standing near each other: the lines that are left of the largest distance,
/// and one more, counted from where they stand nearest; nothing where they stand farther apart
/// everywhere.
pub proof fn law_gain_by_distance(a: Seq<int>, b: Seq<int>, max_gap: int, cap: int)
    requires
        0 <= max_gap < cap,
    ensures
        forall|i: int, j: int|
            0 <= i < a.len() && 0 <= j < b.len() ==> gain(a, b, max_gap, cap) >= max_gap + 1 - distance(
                #[trigger] a[i],
                #[trigger] b[j],
            ),
        gain(a, b, max_gap, cap) > 0 ==> exists|i: int, j: int|
            0 <= i < a.len() && 0 <= j < b.len() && gain(a, b, max_gap, cap) == max_gap + 1 - distance(
                #[trigger] a[i],
                #[trigger] b[j],
            ),
        gain(a, b, max_gap, cap) >= 0,
{
    law_gap_least(a, b, cap);
    if gain(a, b, max_gap, cap) > 0 {
        let (i, j) = choose|i: int, j: int|
            0 <= i < a.len() && 0 <= j < b.len() && gap(a, b, cap) == distance(
                #[trigger] a[i],
                #[trigger] b[j],
            );
        assert(gain(a, b, max_gap, cap) == max_gap + 1 - distance(a[i], b[j]));
    }
}

/// The distance of two lines is the number of lines from the one to the other, either way.
pub proof fn law_distance(a: int, d: int)
    requires
        0 <= d,
    ensures
        distance(a, a + d) == d,
        distance(a + d, a) == d,
{
}

/// Every two terms gain once: the first with each of the others, in their order, and then the others
/// among themselves.
pub proof fn law_gains_by_pair(x: Seq<int>, rest: Seq<Seq<int>>, max_gap: int, cap: int)
    ensures
        gains_from(Seq::empty(), 0, max_gap, cap).len() == 0,
        gains_from(seq![x] + rest, 0, max_gap, cap) == rest.map_values(
            |y: Seq<int>| gain(x, y, max_gap, cap),
        ) + gains_from(rest, 0, max_gap, cap),
{
    let all = seq![x] + rest;
    assert(all.skip(1) =~= rest);
    lemma_gains_with_each(all, 0, 1, max_gap, cap);
    lemma_gains_shift(all, 1, 0, max_gap, cap);
    assert(rest.skip(0) =~= rest);
}

/// The gains of one with those from a place on are those with each of them.
proof fn lemma_gains_with_each(sets: Seq<Seq<int>>, i: int, j: int, max_gap: int, cap: int)
    requires
        0 <= i < sets.len(),
        0 <= j <= sets.len(),
    ensures
        gains_with(sets, i, j, max_gap, cap) == sets.skip(j).map_values(
            |y: Seq<int>| gain(sets[i], y, max_gap, cap),
        ),
    decreases sets.len() - j,
{
    if j < sets.len() {
        lemma_gains_with_each(sets, i, j + 1, max_gap, cap);
        assert(sets.skip(j) =~= seq![sets[j]] + sets.skip(j + 1));
        assert(gains_with(sets, i, j, max_gap, cap) =~= sets.skip(j).map_values(
            |y: Seq<int>| gain(sets[i], y, max_gap, cap),
        ));
    } else {
        assert(gains_with(sets, i, j, max_gap, cap) =~= sets.skip(j).map_values(
            |y: Seq<int>| gain(sets[i], y, max_gap, cap),
        ));
    }
}

/// The gains from a place on are those of what stands there.
proof fn lemma_gains_shift(sets: Seq<Seq<int>>, from: int, k: int, max_gap: int, cap: int)
    requires
        0 <= from,
        0 <= k,
        from + k <= sets.len(),
    ensures
        gains_from(sets, from + k, max_gap, cap) == gains_from(sets.skip(from), k, max_gap, cap),
    decreases sets.len() - from - k,
{
    if from + k < sets.len() {
        let t = sets.skip(from);
        lemma_gains_shift(sets, from, k + 1, max_gap, cap);
        lemma_gains_with_each(sets, from + k, from + k + 1, max_gap, cap);
        lemma_gains_with_each(t, k, k + 1, max_gap, cap);
        assert(t.skip(k + 1) =~= sets.skip(from + k + 1));
        assert(t[k] == sets[from + k]);
        assert(gains_with(sets, from + k, from + k + 1, max_gap, cap) =~= gains_with(
            t,
            k,
            k + 1,
            max_gap,
            cap,
        ));
    }
}

/// The smallest distance between any two terms: no two lines of different terms are nearer, and some
/// are that near unless none are.
pub proof fn law_least_distance(sets: Seq<Vec<i32>>)
    ensures
        least_from(sets, 0) <= i32::MAX,
        forall|i: int, j: int, k: int, l: int|
            0 <= i < j < sets.len() && 0 <= k < sets[i]@.len() && 0 <= l < sets[j]@.len()
                ==> least_from(sets, 0) <= distance(
                (#[trigger] sets[i]@[k]) as int,
                (#[trigger] sets[j]@[l]) as int,
            ),
        least_from(sets, 0) == i32::MAX || exists|i: int, j: int, k: int, l: int|
            0 <= i < j < sets.len() && 0 <= k < sets[i]@.len() && 0 <= l < sets[j]@.len() && least_from(
                sets,
                0,
            ) == distance((#[trigger] sets[i]@[k]) as int, (#[trigger] sets[j]@[l]) as int),
{
    lemma_least_from(sets, 0);
}

proof fn lemma_least_with(sets: Seq<Vec<i32>>, i: int, j: int)
    requires
        0 <= i < sets.len(),
        0 <= j,
    ensures
        least_with(sets, i, j) <= i32::MAX,
        forall|m: int, k: int, l: int|
            j <= m < sets.len() && 0 <= k < sets[i]@.len() && 0 <= l < sets[m]@.len() ==> least_with(
                sets,
                i,
                j,
            ) <= distance((#[trigger] sets[i]@[k]) as int, (#[trigger] sets[m]@[l]) as int),
        least_with(sets, i, j) == i32::MAX || exists|m: int, k: int, l: int|
            j <= m < sets.len() && 0 <= k < sets[i]@.len() && 0 <= l < sets[m]@.len() && least_with(
                sets,
                i,
                j,
            ) == distance((#[trigger] sets[i]@[k]) as int, (#[trigger] sets[m]@[l]) as int),
    decreases sets.len() - j,
{
    if j < sets.len() {
        lemma_least_with(sets, i, j + 1);
        let a = lines_at(sets[i]@);
        let b = lines_at(sets[j]@);
        law_gap_least(a, b, i32::MAX as int);
        assert forall|m: int, k: int, l: int|
            j <= m < sets.len() && 0 <= k < sets[i]@.len() && 0 <= l < sets[m]@.len() implies least_with(
            sets,
            i,
            j,
        ) <= distance((#[trigger] sets[i]@[k]) as int, (#[trigger] sets[m]@[l]) as int) by {
            if m == j {
                assert(a[k] == sets[i]@[k] as int && b[l] == sets[j]@[l] as int);
            }
        }
        if least_with(sets, i, j) < i32::MAX && least_with(sets, i, j) < least_with(sets, i, j + 1) {
            let (k, l) = choose|k: int, l: int|
                0 <= k < a.len() && 0 <= l < b.len() && gap(a, b, i32::MAX as int) == distance(
                    #[trigger] a[k],
                    #[trigger] b[l],
                );
            assert(least_with(sets, i, j) == distance(sets[i]@[k] as int, sets[j]@[l] as int));
        }
    }
}

proof fn lemma_least_from(sets: Seq<Vec<i32>>, from: int)
    requires
        0 <= from,
    ensures
        least_from(sets, from) <= i32::MAX,
        forall|i: int, j: int, k: int, l: int|
            from <= i < j < sets.len() && 0 <= k < sets[i]@.len() && 0 <= l < sets[j]@.len()
                ==> least_from(sets, from) <= distance(
                (#[trigger] sets[i]@[k]) as int,
                (#[trigger] sets[j]@[l]) as int,
            ),
        least_from(sets, from) == i32::MAX || exists|i: int, j: int, k: int, l: int|
            from <= i < j < sets.len() && 0 <= k < sets[i]@.len() && 0 <= l < sets[j]@.len()
                && least_from(sets, from) == distance(
                (#[trigger] sets[i]@[k]) as int,
                (#[trigger] sets[j]@[l]) as int,
            ),
    decreases sets.len() - from,
{
    if from < sets.len() {
        lemma_least_with(sets, from, from + 1);
        lemma_least_from(sets, from + 1);
    }
}

/// A file gains exactly where lines of two different terms are within the largest distance, and then
/// one more than that distance exceeds the smallest.
pub proof fn law_nearness(sets: Seq<Vec<i32>>, max_gap: i32, i: int, j: int, k: int, l: int)
    requires
        0 <= max_gap < i32::MAX,
        0 <= i < j < sets.len(),
        0 <= k < sets[i]@.len(),
        0 <= l < sets[j]@.len(),
    ensures
        distance(sets[i]@[k] as int, sets[j]@[l] as int) <= max_gap ==> nearness(sets, max_gap) is Some
            && nearness(sets, max_gap)->0 >= max_gap + 1 - distance(
            sets[i]@[k] as int,
            sets[j]@[l] as int,
        ),
        nearness(sets, max_gap) is Some ==> 1 <= nearness(sets, max_gap)->0 <= max_gap + 1 && exists|
            a: int,
            b: int,
            c: int,
            d: int,
        |
            0 <= a < b < sets.len() && 0 <= c < sets[a]@.len() && 0 <= d < sets[b]@.len() && nearness(
                sets,
                max_gap,
            )->0 == max_gap + 1 - distance(
                (#[trigger] sets[a]@[c]) as int,
                (#[trigger] sets[b]@[d]) as int,
            ),
{
    law_least_distance(sets);
    assert(least_from(sets, 0) <= distance(sets[i]@[k] as int, sets[j]@[l] as int));
    if nearness(sets, max_gap) is Some {
        let (a, b, c, d) = choose|a: int, b: int, c: int, d: int|
            0 <= a < b < sets.len() && 0 <= c < sets[a]@.len() && 0 <= d < sets[b]@.len() && least_from(
                sets,
                0,
            ) == distance((#[trigger] sets[a]@[c]) as int, (#[trigger] sets[b]@[d]) as int);
        assert(nearness(sets, max_gap)->0 == max_gap + 1 - distance(
            sets[a]@[c] as int,
            sets[b]@[d] as int,
        ));
    }
}

/// A file with the lines of fewer than two terms gains nothing.
pub proof fn law_no_nearness(sets: Seq<Vec<i32>>, max_gap: i32)
    ensures
        sets.len() < 2 ==> nearness(sets, max_gap) is None,
{
}

} // verus!
