//! Fuzzy string matching: Unicode-folding normalization, two similarity
//! metrics, and best-match selection with threshold filtering and tie
//! detection.
//!
//! Similarity scores are IEEE-754 binary64 values carried as their bit
//! patterns (`u64`); see the `score` module for their meaning.

mod score;
mod text;
mod matcher;

pub use score::{
    ONE_BITS, EPSILON_BITS, score_meets_threshold, scores_tied,
};
pub use text::{normalize, lemma_edit_distance_self};
pub use matcher::{
    BestMatch, BestMatchResult, FindBestMatchOptions, MatchError, SimilarityAlgorithm,
    find_best_match, levenshtein_distance, string_similarity, select_best_match,
    lemma_matches_are_candidates, lemma_threshold_monotone,
};
