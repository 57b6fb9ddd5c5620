use stria::lcep::{classify_definition, refine_definition, sampled_total, EntropyBand};

fn band(entropy: f64) -> EntropyBand {
    if entropy < 1.0 {
        EntropyBand::UnderOne
    } else if entropy < 2.0 {
        EntropyBand::UnderTwo
    } else if entropy <= 2.5 {
        EntropyBand::Middle
    } else {
        EntropyBand::OverTwoAndHalf
    }
}

#[test]
fn entropy_empty() {
    let counts: Vec<u32> = vec![];
    assert_eq!(sampled_total(&counts), None);
}

#[test]
fn entropy_few_samples() {
    let counts: Vec<u32> = vec![1];
    assert_eq!(sampled_total(&counts), None);
}

#[test]
fn sampled_total_needs_three() {
    assert_eq!(sampled_total(&[1, 1]), None);
    assert_eq!(sampled_total(&[1, 2]), Some(3));
    assert_eq!(sampled_total(&[10]), Some(10));
    assert_eq!(sampled_total(&[8, 2]), Some(10));
    assert_eq!(sampled_total(&[u32::MAX - 1, 1]), Some(u32::MAX));
}

#[test]
fn classify_strong_def_low_entropy() {
    assert_eq!(classify_definition(5, Some(band(0.5))), 2);
}

#[test]
fn classify_likely_def_medium_entropy() {
    assert_eq!(classify_definition(5, Some(band(1.5))), 1);
}

#[test]
fn classify_usage_high_entropy_common() {
    assert_eq!(classify_definition(50, Some(band(3.0))), 0);
}

#[test]
fn classify_default_def_for_sampled() {
    assert_eq!(classify_definition(50, Some(band(1.5))), 1);
}

#[test]
fn classify_unknown_low_df_no_entropy() {
    assert_eq!(classify_definition(5, None), -1);
}

#[test]
fn classify_high_df_no_entropy() {
    assert_eq!(classify_definition(50, None), 0);
}

#[test]
fn classify_boundary_df_20() {
    // Exactly at boundary
    assert_eq!(classify_definition(20, Some(band(0.5))), 1);
    assert_eq!(classify_definition(19, Some(band(0.5))), 2);
}

#[test]
fn classify_boundary_entropy_1_0() {
    assert_eq!(classify_definition(15, Some(band(0.99))), 2);
    assert_eq!(classify_definition(15, Some(band(1.01))), 1);
}

#[test]
fn classify_middle_and_high_entropy_of_rare_phrases() {
    assert_eq!(classify_definition(5, Some(band(2.2))), 1);
    assert_eq!(classify_definition(5, Some(band(3.0))), 1);
    assert_eq!(classify_definition(20, Some(band(2.5))), 1);
    assert_eq!(classify_definition(20, Some(band(2.51))), 0);
    assert_eq!(classify_definition(9, None), -1);
    assert_eq!(classify_definition(10, None), 0);
}

#[test]
fn refine_strengthens_rare_and_weakens_common() {
    assert_eq!(refine_definition(0, 0, 5, Some(band(0.5))), 2);
    assert_eq!(refine_definition(0, 0, 5, Some(band(1.5))), 1);
    assert_eq!(refine_definition(2, 0, 5, Some(band(1.5))), 2);
    assert_eq!(refine_definition(1, 0, 20, Some(band(3.0))), 0);
    assert_eq!(refine_definition(1, 0, 19, Some(band(3.0))), 1);
    assert_eq!(refine_definition(0, 0, 20, Some(band(0.5))), 0);
    assert_eq!(refine_definition(1, 0, 5, Some(band(2.2))), 1);
}

#[test]
fn refine_leaves_prose_and_unsampled_alone() {
    assert_eq!(refine_definition(0, 1, 5, Some(band(0.5))), 0);
    assert_eq!(refine_definition(1, 1, 50, Some(band(3.0))), 1);
    assert_eq!(refine_definition(1, 0, 50, None), 1);
}

#[test]
fn score_never_rises_with_df() {
    for entropy in [0.5, 1.5, 2.2, 3.0] {
        assert!(
            classify_definition(5, Some(band(entropy))) >= classify_definition(50, Some(band(entropy)))
        );
    }
}

#[test]
fn refined_scores_follow_the_classification() {
    for df in [1u32, 19, 20, 50] {
        for entropy in [0.5, 1.5, 2.2, 3.0] {
            for is_def in 0..=2 {
                let refined = refine_definition(is_def, 0, df, Some(band(entropy)));
                assert!(refined == is_def || refined == classify_definition(df, Some(band(entropy))));
            }
        }
    }
}
