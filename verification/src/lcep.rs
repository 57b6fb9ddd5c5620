//! Left contexts: a phrase that the same few words always precede is likely defined there, one
//! that anything precedes is used there. The spread of the words before a phrase is measured as
//! their Shannon entropy, in bits.

use vstd::prelude::*;

verus! {

/// Where an entropy lies among the bounds that the classification knows.
#[derive(Clone, Copy, Debug, PartialEq, Eq, Structural)]
pub enum EntropyBand {
    /// Under 1 bit.
    UnderOne,
    /// At least 1 bit and under 2 bits.
    UnderTwo,
    /// From 2 bits to 2.5 bits.
    Middle,
    /// Over 2.5 bits.
    OverTwoAndHalf,
}

/// The sum of a sequence of counts.
pub open spec fn total(counts: Seq<u32>) -> nat
    decreases counts.len(),
{
    if counts.len() == 0 {
        0
    } else {
        total(counts.drop_last()) + counts.last() as nat
    }
}

/// How many samples the counts are of, where they are enough.
pub open spec fn samples(counts: Seq<u32>) -> Option<u32> {
    if total(counts) < 3 {
        None
    } else {
        Some(total(counts) as u32)
    }
}

/// The number of samples of a left-context distribution, where there are at least 3. Fewer are too
/// few to measure an entropy by.
pub fn sampled_total(counts: &[u32]) -> (r: Option<u32>)
    requires
        total(counts@) <= u32::MAX,
    ensures
        r == samples(counts@),
{
    let mut sum: u32 = 0;
    let mut i: usize = 0;
    while i < counts.len()
        invariant
            i <= counts@.len(),
            sum == total(counts@.take(i as int)),
            total(counts@) <= u32::MAX,
        decreases counts@.len() - i,
    {
        proof {
            assert(counts@.take(i + 1).drop_last() =~= counts@.take(i as int));
            lemma_total_take(counts@, i + 1);
        }
        sum += counts[i];
        i += 1;
    }
    assert(counts@.take(i as int) =~= counts@);
    if sum < 3 {
        None
    } else {
        Some(sum)
    }
}

/// A prefix of the counts has no larger sum than all of them.
proof fn lemma_total_take(counts: Seq<u32>, n: int)
    requires
        0 <= n <= counts.len(),
    ensures
        total(counts.take(n)) <= total(counts),
    decreases counts.len() - n,
{
    if n < counts.len() {
        assert(counts.take(n + 1).drop_last() =~= counts.take(n));
        lemma_total_take(counts, n + 1);
    } else {
        assert(counts.take(n) =~= counts);
    }
}

/// The definition score of a phrase that occurs in `df` documents, by the entropy of its left
/// contexts where it was sampled: 2 for a strong definition, 1 for a likely one, 0 for a use, -1
/// for unknown.
pub open spec fn definition_score(df: int, entropy: Option<EntropyBand>) -> int {
    match entropy {
        Some(EntropyBand::UnderOne) => if df < 20 {
            2
        } else {
            1
        },
        Some(EntropyBand::OverTwoAndHalf) => if df >= 20 {
            0
        } else {
            1
        },
        Some(_) => 1,
        None => if df < 10 {
            -1
        } else {
            0
        },
    }
}

/// Classifies a phrase by its left-context entropy and its document frequency.
pub fn classify_definition(phrase_df_count: u32, left_ctx_entropy: Option<EntropyBand>) -> (r: i32)
    ensures
        r == definition_score(phrase_df_count as int, left_ctx_entropy),
{
    match left_ctx_entropy {
        Some(band) => {
            if phrase_df_count < 20 && band == EntropyBand::UnderOne {
                2
            } else if phrase_df_count >= 20 && band == EntropyBand::OverTwoAndHalf {
                0
            } else {
                1
            }
        },
        None => if phrase_df_count < 10 {
            -1
        } else {
            0
        },
    }
}

/// The definition score that an occurrence is stored with: its own, `is_def`, corrected by the
/// entropy of the left contexts of its phrase. Only an occurrence in code is corrected.
pub open spec fn refined(is_def: int, zone: int, df: int, entropy: Option<EntropyBand>) -> int {
    if zone != 0 {
        is_def
    } else {
        match entropy {
            Some(EntropyBand::UnderOne) => if df < 20 {
                2
            } else {
                is_def
            },
            Some(EntropyBand::UnderTwo) => if df < 20 && is_def < 1 {
                1
            } else {
                is_def
            },
            Some(EntropyBand::OverTwoAndHalf) => if df >= 20 {
                0
            } else {
                is_def
            },
            _ => is_def,
        }
    }
}

/// Corrects the definition score of an occurrence by the entropy of its phrase.
pub fn refine_definition(is_def: i32, zone: i32, df: u32, entropy: Option<EntropyBand>) -> (r: i32)
    ensures
        r == refined(is_def as int, zone as int, df as int, entropy),
{
    if zone != 0 {
        return is_def;
    }
    match entropy {
        Some(band) => {
            if df < 20 && band == EntropyBand::UnderOne {
                2
            } else if df < 20 && band == EntropyBand::UnderTwo {
                if is_def < 1 {
                    1
                } else {
                    is_def
                }
            } else if df >= 20 && band == EntropyBand::OverTwoAndHalf {
                0
            } else {
                is_def
            }
        },
        None => is_def,
    }
}

/// A corrected score is one that fits the two bits it is stored in.
pub proof fn law_refined_fits(is_def: int, zone: int, df: int, entropy: Option<EntropyBand>)
    requires
        -1 <= is_def <= 2,
    ensures
        -1 <= refined(is_def, zone, df, entropy) <= 2,
{
}

/// Outside code, and without samples, the entropy changes nothing.
pub proof fn law_refined_keeps(is_def: int, zone: int, df: int, entropy: Option<EntropyBand>)
    requires
        zone != 0 || entropy is None,
    ensures
        refined(is_def, zone, df, entropy) == is_def,
{
}

/// Where the entropy corrects the score of an occurrence, it does not go against the classification
/// of its phrase: the corrected score is that of the phrase, or the occurrence keeps its own.
pub proof fn law_refined_follows_score(is_def: int, df: int, entropy: EntropyBand)
    ensures
        refined(is_def, 0, df, Some(entropy)) == definition_score(df, Some(entropy)) || refined(
            is_def,
            0,
            df,
            Some(entropy),
        ) == is_def,
{
}

/// A rarer phrase never scores lower: among sampled phrases of one entropy, fewer documents give a
/// score at least as high.
pub proof fn law_score_falls_with_df(a: int, b: int, entropy: EntropyBand)
    requires
        a <= b,
    ensures
        definition_score(a, Some(entropy)) >= definition_score(b, Some(entropy)),
{
}

/// What the context before a phrase says of it. With hardly any variety a rare phrase is surely a
/// definition; with little or some it is likely one, whatever its frequency; with much variety a
/// frequent phrase is none. Without a context a rare phrase is unknown and a frequent one is none.
pub proof fn law_score_by_variety(df: int)
    ensures
        definition_score(df, Some(EntropyBand::UnderOne)) == 2 <==> df < 20,
        definition_score(df, Some(EntropyBand::UnderOne)) == 1 <==> df >= 20,
        definition_score(df, Some(EntropyBand::UnderTwo)) == 1,
        definition_score(df, Some(EntropyBand::Middle)) == 1,
        definition_score(df, Some(EntropyBand::OverTwoAndHalf)) == 1 <==> df < 20,
        definition_score(df, Some(EntropyBand::OverTwoAndHalf)) == 0 <==> df >= 20,
        definition_score(df, None) == -1 <==> df < 10,
        definition_score(df, None) == 0 <==> df >= 10,
{
}

/// How a score is changed in code: hardly any variety raises that of a rare phrase to the highest,
/// little raises it to likely but lowers nothing, much takes that of a frequent phrase away, and in
/// all other cases it stays.
pub proof fn law_refined_by_variety(is_def: int, df: int)
    ensures
        df < 20 ==> refined(is_def, 0, df, Some(EntropyBand::UnderOne)) == 2,
        df >= 20 ==> refined(is_def, 0, df, Some(EntropyBand::UnderOne)) == is_def,
        df < 20 ==> refined(is_def, 0, df, Some(EntropyBand::UnderTwo)) >= is_def,
        df < 20 && is_def < 1 ==> refined(is_def, 0, df, Some(EntropyBand::UnderTwo)) == 1,
        df < 20 && is_def >= 1 ==> refined(is_def, 0, df, Some(EntropyBand::UnderTwo)) == is_def,
        df >= 20 ==> refined(is_def, 0, df, Some(EntropyBand::UnderTwo)) == is_def,
        refined(is_def, 0, df, Some(EntropyBand::Middle)) == is_def,
        df < 20 ==> refined(is_def, 0, df, Some(EntropyBand::OverTwoAndHalf)) == is_def,
        df >= 20 ==> refined(is_def, 0, df, Some(EntropyBand::OverTwoAndHalf)) == 0,
{
}

/// A total is made of all that is counted.
pub proof fn law_total_adds_up(counts: Seq<u32>, c: u32)
    ensures
        total(Seq::empty()) == 0,
        total(counts.push(c)) == total(counts) + c,
{
    assert(counts.push(c).drop_last() =~= counts);
}

/// Three samples are enough to measure by, and two are too few; all of them count.
pub proof fn law_enough_samples(counts: Seq<u32>)
    requires
        total(counts) <= u32::MAX,
    ensures
        samples(counts) is None <==> total(counts) <= 2,
        samples(counts) is Some ==> samples(counts)->0 == total(counts),
{
}

} // verus!
