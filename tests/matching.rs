use string_match::{
    find_best_match, levenshtein_distance, normalize, score_meets_threshold, scores_tied,
    select_best_match, string_similarity, FindBestMatchOptions, MatchError, SimilarityAlgorithm,
    EPSILON_BITS, ONE_BITS,
};

fn strings(items: &[&str]) -> Vec<String> {
    items.iter().map(|s| s.to_string()).collect()
}

fn value(bits: u64) -> f64 {
    f64::from_bits(bits)
}

#[test]
fn constants_match_f64() {
    assert_eq!(ONE_BITS, 1.0f64.to_bits());
    assert_eq!(EPSILON_BITS, f64::EPSILON.to_bits());
}

#[test]
fn similarity_of_string_with_itself_is_one() {
    for s in ["a", "hello", "Café", "北京", "  x y  "] {
        for alg in [None, Some(SimilarityAlgorithm::JaroWinkler), Some(SimilarityAlgorithm::LevenshteinSimilarity)] {
            assert_eq!(value(string_similarity(s.to_string(), s.to_string(), alg)), 1.0);
        }
    }
}

#[test]
fn similarity_is_symmetric() {
    let pairs = [("martha", "marhta"), ("dixon", "dicksonx"), ("abc", ""), ("Crème", "creme brulee")];
    for (a, b) in pairs {
        for alg in [SimilarityAlgorithm::JaroWinkler, SimilarityAlgorithm::LevenshteinSimilarity] {
            assert_eq!(
                string_similarity(a.to_string(), b.to_string(), Some(alg)),
                string_similarity(b.to_string(), a.to_string(), Some(alg))
            );
        }
    }
}

#[test]
fn jaro_winkler_known_value() {
    let r = value(string_similarity("martha".to_string(), "marhta".to_string(), None));
    assert!((r - 0.9611111111111111).abs() < 1e-12);
    let none = value(string_similarity("abc".to_string(), "xyz".to_string(), None));
    assert_eq!(none, 0.0);
}

#[test]
fn levenshtein_similarity_formula() {
    let alg = Some(SimilarityAlgorithm::LevenshteinSimilarity);
    // distance 3 over a longer length of 7
    let r = value(string_similarity("kitten".to_string(), "sitting".to_string(), alg));
    assert_eq!(r, 1.0 - 3.0 / 7.0);
    // normalization removes the difference in case and accents
    let r = value(string_similarity("CAFÉ".to_string(), "cafe".to_string(), alg));
    assert_eq!(r, 1.0);
    let r = value(string_similarity("abc".to_string(), "".to_string(), alg));
    assert_eq!(r, 0.0);
}

#[test]
fn empty_strings() {
    assert_eq!(levenshtein_distance(String::new(), String::new()), Ok(0));
    let r = string_similarity(String::new(), String::new(), Some(SimilarityAlgorithm::LevenshteinSimilarity));
    assert_eq!(value(r), 1.0);
}

#[test]
fn distance_to_self_is_zero() {
    for s in ["", "a", "kitten", "Café", "北京"] {
        assert_eq!(levenshtein_distance(s.to_string(), s.to_string()), Ok(0));
    }
}

#[test]
fn distance_is_not_normalized() {
    assert_eq!(levenshtein_distance("kitten".to_string(), "sitting".to_string()), Ok(3));
    assert_eq!(levenshtein_distance("abc".to_string(), "ABC".to_string()), Ok(3));
    assert_eq!(levenshtein_distance("café".to_string(), "cafe".to_string()), Ok(1));
    assert_eq!(levenshtein_distance("".to_string(), "abcd".to_string()), Ok(4));
}

#[test]
fn normalize_folds_case_and_diacritics() {
    assert_eq!(normalize("Café"), "cafe");
    assert_eq!(normalize("ÀÉÎ"), "aei");
    assert_eq!(normalize("abc"), "abc");
    assert_eq!(normalize(""), "");
}

#[test]
fn accented_target_finds_plain_candidate() {
    let r = find_best_match("café".to_string(), strings(&["cafe", "coffee"]), None).unwrap();
    assert_eq!(r.best_match.string, "cafe");
    assert_eq!(value(r.best_match.score), 1.0);
    assert!(!r.has_tie);
    assert_eq!(r.all_matches.len(), 1);
}

#[test]
fn case_variants_tie_in_input_order() {
    let r = find_best_match("abc".to_string(), strings(&["abc", "ABC"]), None).unwrap();
    assert!(r.has_tie);
    assert_eq!(r.all_matches.len(), 2);
    assert_eq!(r.all_matches[0].string, "abc");
    assert_eq!(r.all_matches[1].string, "ABC");
    assert_eq!(value(r.all_matches[0].score), 1.0);
    assert_eq!(value(r.all_matches[1].score), 1.0);
    assert_eq!(r.best_match.string, "abc");
}

#[test]
fn empty_candidates_fail() {
    assert_eq!(find_best_match("x".to_string(), vec![], None).unwrap_err(), MatchError::EmptyCandidates);
}

#[test]
fn threshold_filters_everything() {
    let opts = FindBestMatchOptions { algorithm: None, threshold: Some(0.99f64.to_bits()) };
    let r = find_best_match("zzz".to_string(), strings(&["abc"]), Some(opts));
    assert_eq!(r.unwrap_err(), MatchError::NoCandidatesAboveThreshold);
}

#[test]
fn threshold_above_one_filters_all_and_negative_keeps_all() {
    let high = FindBestMatchOptions { algorithm: None, threshold: Some(1.5f64.to_bits()) };
    let r = find_best_match("abc".to_string(), strings(&["abc"]), Some(high));
    assert_eq!(r.unwrap_err(), MatchError::NoCandidatesAboveThreshold);
    let low = FindBestMatchOptions { algorithm: None, threshold: Some((-1.0f64).to_bits()) };
    let r = find_best_match("abc".to_string(), strings(&["xyz"]), Some(low)).unwrap();
    assert_eq!(r.best_match.string, "xyz");
    assert_eq!(value(r.best_match.score), 0.0);
}

#[test]
fn threshold_equal_to_score_keeps_candidate() {
    let opts = FindBestMatchOptions { algorithm: None, threshold: Some(1.0f64.to_bits()) };
    let r = find_best_match("Abc".to_string(), strings(&["xyz", "abc"]), Some(opts)).unwrap();
    assert_eq!(r.best_match.string, "abc");
}

#[test]
fn best_match_is_among_candidates() {
    let cands = strings(&["apple", "apply", "ample", "maple", "Apple"]);
    let r = find_best_match("appel".to_string(), cands.clone(), None).unwrap();
    assert_eq!(r.best_match.string, r.all_matches[0].string);
    assert_eq!(r.best_match.score, r.all_matches[0].score);
    for m in &r.all_matches {
        assert!(cands.contains(&m.string));
    }
    assert_eq!(r.has_tie, r.all_matches.len() > 1);
}

#[test]
fn raising_threshold_never_adds_candidates() {
    let cands = strings(&["apple", "apply", "banana", "grape"]);
    let mut previous = usize::MAX;
    for t in [0.0f64, 0.3, 0.6, 0.8, 0.9, 0.95] {
        let opts = FindBestMatchOptions { algorithm: Some(SimilarityAlgorithm::LevenshteinSimilarity), threshold: Some(t.to_bits()) };
        let n = cands
            .iter()
            .filter(|c| {
                let s = string_similarity("appel".to_string(), c.to_string(), Some(SimilarityAlgorithm::LevenshteinSimilarity));
                score_meets_threshold(s, opts.threshold.unwrap())
            })
            .count();
        assert!(n <= previous);
        previous = n;
    }
}

#[test]
fn levenshtein_algorithm_ranks_by_edit_distance() {
    let opts = FindBestMatchOptions { algorithm: Some(SimilarityAlgorithm::LevenshteinSimilarity), threshold: None };
    let r = find_best_match("kitten".to_string(), strings(&["sitting", "mitten", "bitten"]), Some(opts)).unwrap();
    assert!(r.has_tie);
    assert_eq!(r.all_matches.len(), 2);
    assert_eq!(r.all_matches[0].string, "mitten");
    assert_eq!(r.all_matches[1].string, "bitten");
    assert_eq!(value(r.best_match.score), 1.0 - 1.0 / 6.0);
}

#[test]
fn selection_orders_near_ties_by_score() {
    let top = 0.75f64.to_bits();
    let just_below = top - 1; // one unit below, well within epsilon
    let cands = strings(&["first", "second", "third"]);
    let scores = vec![just_below, 0.5f64.to_bits(), top];
    let r = select_best_match(&cands, &scores, 0).unwrap();
    assert_eq!(r.all_matches.len(), 2);
    assert_eq!(r.all_matches[0].string, "third");
    assert_eq!(r.all_matches[1].string, "first");
    assert!(r.has_tie);
}

#[test]
fn selection_errors() {
    assert_eq!(select_best_match(&vec![], &vec![], 0).unwrap_err(), MatchError::EmptyCandidates);
    let r = select_best_match(&strings(&["a"]), &vec![0.25f64.to_bits()], 0.5f64.to_bits());
    assert_eq!(r.unwrap_err(), MatchError::NoCandidatesAboveThreshold);
    let r = select_best_match(&strings(&["a"]), &vec![0.25f64.to_bits()], f64::NAN.to_bits());
    assert_eq!(r.unwrap_err(), MatchError::NoCandidatesAboveThreshold);
}

#[test]
fn threshold_comparison_matches_f64() {
    let scores = [0.0f64, 0.25, 0.5, 0.999, 1.0];
    let thresholds = [-1.0f64, -0.0, 0.0, 0.25, 0.5, 0.9990000001, 1.0, 2.0, f64::INFINITY, f64::NAN, f64::MIN_POSITIVE];
    for s in scores {
        for t in thresholds {
            assert_eq!(score_meets_threshold(s.to_bits(), t.to_bits()), s >= t, "{} >= {}", s, t);
        }
    }
}

#[test]
fn tie_detection_matches_f64_epsilon() {
    let tops = [1.0f64, 0.9, 0.5, 0.3, 1e-10, 3.0e-16, 2.5e-16, 2.220446049250313e-16, 1e-300, 0.0];
    for t in tops {
        let tb = t.to_bits();
        for delta in [0u64, 1, 2, 3, 4, 10, 1000, 1 << 40, 1 << 52] {
            if delta > tb {
                continue;
            }
            let xb = tb - delta;
            let x = f64::from_bits(xb);
            let exact = (t - x).abs() < f64::EPSILON;
            assert_eq!(scores_tied(tb, xb), exact, "{} vs {}", t, x);
        }
        assert!(scores_tied(tb, 0) == (t < f64::EPSILON));
    }
}
