//! Scoring and best-match selection over candidate lists.
use vstd::prelude::*;
use crate::score::{
    ONE_BITS, is_score, is_nan, signed_value, meets_threshold, within_epsilon, score_meets_threshold, scores_tied,
};
use crate::text::{
    normalized, normalize, jaro_winkler_of, normalized_levenshtein_of, jaro_winkler_bits,
    normalized_levenshtein_bits, edit_distance, char_edit_distance, lemma_edit_distance_self,
};

verus! {

/// The similarity metric used to score a pair of strings.
#[derive(Clone, Copy, Debug, PartialEq, Eq, Structural)]
pub enum SimilarityAlgorithm {
    JaroWinkler,
    LevenshteinSimilarity,
}

/// One selected candidate: its text as given and its score (bit pattern of
/// an `f64` in [0, 1]).
#[derive(Clone, Debug)]
pub struct BestMatch {
    pub string: String,
    pub score: u64,
}

/// The outcome of a successful search.
#[derive(Clone, Debug)]
pub struct BestMatchResult {
    pub best_match: BestMatch,
    pub all_matches: Vec<BestMatch>,
    pub has_tie: bool,
}

/// Search options; a missing field takes its default (Jaro-Winkler, and a
/// threshold of 0.0). The threshold is the bit pattern of an `f64`.
#[derive(Clone, Copy, Debug)]
pub struct FindBestMatchOptions {
    pub algorithm: Option<SimilarityAlgorithm>,
    pub threshold: Option<u64>,
}

#[derive(Clone, Copy, Debug, PartialEq, Eq, Structural)]
pub enum MatchError {
    /// The candidate list was empty.
    EmptyCandidates,
    /// No candidate scored at or above the threshold.
    NoCandidatesAboveThreshold,
    /// An edit distance does not fit in an `i32`.
    DistanceOverflow,
}

pub open spec fn resolved_algorithm(algorithm: Option<SimilarityAlgorithm>) -> SimilarityAlgorithm {
    match algorithm {
        Some(a) => a,
        None => SimilarityAlgorithm::JaroWinkler,
    }
}

pub open spec fn options_algorithm(options: Option<FindBestMatchOptions>) -> SimilarityAlgorithm {
    match options {
        Some(o) => resolved_algorithm(o.algorithm),
        None => SimilarityAlgorithm::JaroWinkler,
    }
}

pub open spec fn options_threshold(options: Option<FindBestMatchOptions>) -> u64 {
    match options {
        Some(o) => match o.threshold {
            Some(t) => t,
            None => 0,
        },
        None => 0,
    }
}

/// Score of two already normalized strings under `algorithm`.
pub open spec fn pair_score(algorithm: SimilarityAlgorithm, a: Seq<char>, b: Seq<char>) -> u64 {
    match algorithm {
        SimilarityAlgorithm::JaroWinkler => jaro_winkler_of(a, b),
        SimilarityAlgorithm::LevenshteinSimilarity => normalized_levenshtein_of(a, b),
    }
}

/// Similarity of two strings: both are normalized, then scored.
pub open spec fn similarity(s1: Seq<char>, s2: Seq<char>, algorithm: SimilarityAlgorithm) -> u64 {
    pair_score(algorithm, normalized(s1), normalized(s2))
}

/// Scores of each candidate against the target, in candidate order.
pub open spec fn candidate_scores(
    target: Seq<char>,
    candidates: Seq<String>,
    algorithm: SimilarityAlgorithm,
) -> Seq<u64> {
    candidates.map_values(|c: String| similarity(target, c@, algorithm))
}

/// Largest score that meets the threshold, or 0 when none does.
pub open spec fn top_score(scores: Seq<u64>, threshold: u64) -> u64
    decreases scores.len(),
{
    if scores.len() == 0 {
        0
    } else {
        let rest = top_score(scores.drop_last(), threshold);
        let s = scores.last();
        if meets_threshold(s, threshold) && s > rest {
            s
        } else {
            rest
        }
    }
}

pub open spec fn some_meets_threshold(scores: Seq<u64>, threshold: u64) -> bool {
    exists|i: int| 0 <= i < scores.len() && meets_threshold(#[trigger] scores[i], threshold)
}

/// Index `i` is among the best: it meets the threshold and lies within
/// epsilon of the top score.
#[verifier::opaque]
pub open spec fn is_tied(scores: Seq<u64>, threshold: u64, i: int) -> bool {
    meets_threshold(scores[i], threshold) && within_epsilon(top_score(scores, threshold), scores[i])
}

/// Index `a` comes before index `b`: higher score first, then earlier
/// position.
pub open spec fn ranks_before(scores: Seq<u64>, a: int, b: int) -> bool {
    scores[a] > scores[b] || (scores[a] == scores[b] && a < b)
}

/// `order` lists, among the first `n` indices, exactly the tied ones, by rank.
pub open spec fn ranks_tied_prefix(scores: Seq<u64>, threshold: u64, order: Seq<usize>, n: int) -> bool {
    &&& forall|k: int| 0 <= k < order.len() ==> (#[trigger] order[k]) < n && is_tied(scores, threshold, order[k] as int)
    &&& forall|i: int| 0 <= i < n && is_tied(scores, threshold, i) ==> order.contains(i as usize)
    &&& forall|k1: int, k2: int| 0 <= k1 < k2 < order.len() ==> ranks_before(scores, #[trigger] order[k1] as int, #[trigger] order[k2] as int)
}

/// `order` lists the tied indices by descending score, equal scores in
/// candidate order.
pub open spec fn ranks_tied(scores: Seq<u64>, threshold: u64, order: Seq<usize>) -> bool {
    ranks_tied_prefix(scores, threshold, order, scores.len() as int)
}

/// `m` holds candidate `i` with its score.
pub open spec fn holds_candidate(m: BestMatch, candidates: Seq<String>, scores: Seq<u64>, i: int) -> bool {
    m.string@ == candidates[i]@ && m.score == scores[i]
}

/// `res` reports the tied candidates in rank order.
pub open spec fn reports_ties(
    candidates: Seq<String>,
    scores: Seq<u64>,
    threshold: u64,
    res: BestMatchResult,
) -> bool {
    &&& exists|order: Seq<usize>| {
        &&& ranks_tied(scores, threshold, order)
        &&& res.all_matches@.len() == order.len()
        &&& forall|k: int| 0 <= k < order.len() ==>
            holds_candidate(#[trigger] res.all_matches@[k], candidates, scores, order[k] as int)
    }
    &&& res.all_matches@.len() > 0
    &&& res.best_match.string@ == res.all_matches@[0].string@
    &&& res.best_match.score == res.all_matches@[0].score
    &&& res.has_tie == (res.all_matches@.len() > 1)
}

/// The outcome of selecting among `candidates` with the given scores.
pub open spec fn selects(
    candidates: Seq<String>,
    scores: Seq<u64>,
    threshold: u64,
    r: Result<BestMatchResult, MatchError>,
) -> bool {
    if candidates.len() == 0 {
        r == Err::<BestMatchResult, MatchError>(MatchError::EmptyCandidates)
    } else if !some_meets_threshold(scores, threshold) {
        r == Err::<BestMatchResult, MatchError>(MatchError::NoCandidatesAboveThreshold)
    } else {
        r is Ok && reports_ties(candidates, scores, threshold, r->Ok_0)
    }
}

proof fn lemma_top_score(scores: Seq<u64>, threshold: u64)
    ensures
        forall|i: int| 0 <= i < scores.len() && meets_threshold(scores[i], threshold)
            ==> scores[i] <= top_score(scores, threshold),
        some_meets_threshold(scores, threshold) ==> exists|i: int|
            0 <= i < scores.len() && meets_threshold(scores[i], threshold)
            && scores[i] == top_score(scores, threshold),
    decreases scores.len(),
{
    if scores.len() > 0 {
        let rest = scores.drop_last();
        let last = scores.len() - 1;
        lemma_top_score(rest, threshold);
        assert forall|i: int| 0 <= i < scores.len() && meets_threshold(scores[i], threshold)
            implies scores[i] <= top_score(scores, threshold) by {
            if i < last {
                assert(rest[i] == scores[i]);
            }
        }
        if some_meets_threshold(scores, threshold) {
            if meets_threshold(scores[last], threshold) && scores[last] > top_score(rest, threshold) {
                assert(scores[last] == top_score(scores, threshold));
            } else if some_meets_threshold(rest, threshold) {
                let i = choose|i: int| 0 <= i < rest.len() && meets_threshold(rest[i], threshold)
                    && rest[i] == top_score(rest, threshold);
                assert(scores[i] == rest[i]);
            } else {
                let j = choose|j: int| 0 <= j < scores.len() && meets_threshold(#[trigger] scores[j], threshold);
                if j < last {
                    assert(meets_threshold(rest[j], threshold));
                }
                assert(top_score(rest, threshold) == 0) by {
                    lemma_top_zero_or_met(rest, threshold);
                }
                assert(scores[last] == top_score(scores, threshold));
            }
        }
    }
}

proof fn lemma_top_zero_or_met(scores: Seq<u64>, threshold: u64)
    ensures
        top_score(scores, threshold) == 0 || some_meets_threshold(scores, threshold),
    decreases scores.len(),
{
    if scores.len() > 0 {
        let rest = scores.drop_last();
        lemma_top_zero_or_met(rest, threshold);
        if some_meets_threshold(rest, threshold) {
            let i = choose|i: int| 0 <= i < rest.len() && meets_threshold(#[trigger] rest[i], threshold);
            assert(scores[i] == rest[i]);
        }
        if meets_threshold(scores.last(), threshold) {
            assert(meets_threshold(scores[scores.len() - 1], threshold));
        }
    }
}

proof fn lemma_insert_keeps_ranking(scores: Seq<u64>, threshold: u64, old_order: Seq<usize>, p: int, i: int)
    requires
        0 <= i < scores.len(),
        i < usize::MAX,
        0 <= p <= old_order.len(),
        ranks_tied_prefix(scores, threshold, old_order, i),
        is_tied(scores, threshold, i),
        forall|k: int| 0 <= k < p ==> scores[#[trigger] old_order[k] as int] >= scores[i],
        p == old_order.len() || scores[old_order[p] as int] < scores[i],
    ensures
        ranks_tied_prefix(scores, threshold, old_order.insert(p, i as usize), i + 1),
{
    let order = old_order.insert(p, i as usize);
    let s = scores[i];
    assert forall|k: int| p <= k < old_order.len() implies scores[#[trigger] old_order[k] as int] < s by {
        if k > p {
            assert(ranks_before(scores, old_order[p] as int, old_order[k] as int));
        }
    }
    assert forall|k: int| 0 <= k < order.len() implies (#[trigger] order[k]) < i + 1
        && is_tied(scores, threshold, order[k] as int) by {
        if k < p {
            assert(order[k] == old_order[k]);
        } else if k > p {
            assert(order[k] == old_order[k - 1]);
        }
    }
    assert forall|j: int| 0 <= j < i + 1 && is_tied(scores, threshold, j)
        implies order.contains(j as usize) by {
        if j < i {
            let k = choose|k: int| 0 <= k < old_order.len() && old_order[k] == j as usize;
            if k < p {
                assert(order[k] == old_order[k]);
            } else {
                assert(order[k + 1] == old_order[k]);
            }
        } else {
            assert(order[p] == i);
        }
    }
    assert forall|k1: int, k2: int| 0 <= k1 < k2 < order.len() implies ranks_before(
        scores, #[trigger] order[k1] as int, #[trigger] order[k2] as int) by {
        if k2 < p {
            assert(order[k1] == old_order[k1] && order[k2] == old_order[k2]);
        } else if k2 == p {
            assert(order[k1] == old_order[k1]);
        } else if k1 > p {
            assert(order[k1] == old_order[k1 - 1] && order[k2] == old_order[k2 - 1]);
        } else if k1 == p {
            assert(order[k2] == old_order[k2 - 1]);
        } else {
            assert(order[k1] == old_order[k1] && order[k2] == old_order[k2 - 1]);
        }
    }
}

proof fn lemma_top_is_score(scores: Seq<u64>, threshold: u64)
    requires
        forall|i: int| 0 <= i < scores.len() ==> is_score(#[trigger] scores[i]),
    ensures
        is_score(top_score(scores, threshold)),
    decreases scores.len(),
{
    if scores.len() > 0 {
        let rest = scores.drop_last();
        assert forall|i: int| 0 <= i < rest.len() implies is_score(#[trigger] rest[i]) by {
            assert(rest[i] == scores[i]);
        }
        lemma_top_is_score(rest, threshold);
        assert(is_score(scores[scores.len() - 1]));
    }
}

/// Largest score among those that meet the threshold (0 when none does),
/// and whether any does.
fn best_score(scores: &Vec<u64>, threshold: u64) -> (r: (u64, bool))
    requires
        forall|i: int| 0 <= i < scores@.len() ==> is_score(#[trigger] scores@[i]),
    ensures
        r.0 == top_score(scores@, threshold),
        r.1 == some_meets_threshold(scores@, threshold),
{
    let mut top: u64 = 0;
    let mut any = false;
    let mut i: usize = 0;
    while i < scores.len()
        invariant
            i <= scores@.len(),
            forall|j: int| 0 <= j < scores@.len() ==> is_score(#[trigger] scores@[j]),
            top == top_score(scores@.take(i as int), threshold),
            any == some_meets_threshold(scores@.take(i as int), threshold),
        decreases scores@.len() - i,
    {
        let s = scores[i];
        let ghost before = scores@.take(i as int);
        let ghost after = scores@.take(i + 1);
        assert(after.drop_last() == before);
        assert(after.last() == s);
        if score_meets_threshold(s, threshold) {
            any = true;
            assert(after[i as int] == s);
            if s > top {
                top = s;
            }
        } else {
            assert forall|j: int| 0 <= j < after.len() && meets_threshold(#[trigger] after[j], threshold)
                implies meets_threshold(before[j], threshold) by {
                assert(j < before.len());
                assert(after[j] == before[j]);
            }
        }
        proof {
            if some_meets_threshold(before, threshold) {
                let j = choose|j: int| 0 <= j < before.len() && meets_threshold(#[trigger] before[j], threshold);
                assert(after[j] == before[j]);
            }
        }
        i = i + 1;
    }
    assert(scores@.take(scores@.len() as int) == scores@);
    (top, any)
}

/// Indices of the candidates tied at the top, by descending score, equal
/// scores in candidate order.
fn rank_ties(scores: &Vec<u64>, threshold: u64, top: u64) -> (order: Vec<usize>)
    requires
        forall|i: int| 0 <= i < scores@.len() ==> is_score(#[trigger] scores@[i]),
        top == top_score(scores@, threshold),
    ensures
        ranks_tied(scores@, threshold, order@),
{
    proof {
        lemma_top_score(scores@, threshold);
        lemma_top_is_score(scores@, threshold);
    }
    let mut order: Vec<usize> = Vec::new();
    let mut i: usize = 0;
    while i < scores.len()
        invariant
            i <= scores@.len(),
            forall|j: int| 0 <= j < scores@.len() ==> is_score(#[trigger] scores@[j]),
            top == top_score(scores@, threshold),
            is_score(top),
            forall|j: int| 0 <= j < scores@.len() && meets_threshold(scores@[j], threshold)
                ==> scores@[j] <= top,
            ranks_tied_prefix(scores@, threshold, order@, i as int),
        decreases scores@.len() - i,
    {
        let s = scores[i];
        let tied = score_meets_threshold(s, threshold) && scores_tied(top, s);
        proof {
            reveal(is_tied);
        }
        if tied {
            let mut p: usize = 0;
            while p < order.len() && scores[order[p]] >= s
                invariant
                    p <= order@.len(),
                    i < scores@.len(),
                    s == scores@[i as int],
                    ranks_tied_prefix(scores@, threshold, order@, i as int),
                    forall|k: int| 0 <= k < p ==> scores@[#[trigger] order@[k] as int] >= s,
                decreases order@.len() - p,
            {
                p = p + 1;
            }
            let ghost old_order = order@;
            order.insert(p, i);
            proof {
                lemma_insert_keeps_ranking(scores@, threshold, old_order, p as int, i as int);
            }
        } else {
            assert forall|j: int| 0 <= j < i + 1 && is_tied(scores@, threshold, j)
                implies order@.contains(j as usize) by {
                if j == i {
                    assert(!is_tied(scores@, threshold, j));
                }
            }
        }
        i = i + 1;
    }
    order
}

/// Selects the best candidates given each candidate's score: those that meet
/// the threshold and lie within `f64::EPSILON` of the highest such score, by
/// descending score, equal scores in candidate order.
pub fn select_best_match(candidates: &Vec<String>, scores: &Vec<u64>, threshold: u64) -> (r: Result<BestMatchResult, MatchError>)
    requires
        candidates@.len() == scores@.len(),
        forall|i: int| 0 <= i < scores@.len() ==> is_score(#[trigger] scores@[i]),
    ensures
        selects(candidates@, scores@, threshold, r),
{
    if candidates.len() == 0 {
        return Err(MatchError::EmptyCandidates);
    }
    let (top, any) = best_score(scores, threshold);
    if !any {
        return Err(MatchError::NoCandidatesAboveThreshold);
    }
    let order = rank_ties(scores, threshold, top);
    proof {
        lemma_top_score(scores@, threshold);
        lemma_top_is_score(scores@, threshold);
        let i = choose|i: int| 0 <= i < scores@.len() && meets_threshold(scores@[i], threshold)
            && scores@[i] == top_score(scores@, threshold);
        crate::score::lemma_within_epsilon_self(top);
        reveal(is_tied);
        assert(is_tied(scores@, threshold, i));
        assert(order@.contains(i as usize));
    }
    let mut all_matches: Vec<BestMatch> = Vec::new();
    let mut k: usize = 0;
    while k < order.len()
        invariant
            k <= order@.len(),
            candidates@.len() == scores@.len(),
            ranks_tied(scores@, threshold, order@),
            all_matches@.len() == k,
            forall|j: int| 0 <= j < k ==>
                holds_candidate(#[trigger] all_matches@[j], candidates@, scores@, order@[j] as int),
        decreases order@.len() - k,
    {
        let idx = order[k];
        let m = BestMatch { string: candidates[idx].clone(), score: scores[idx] };
        all_matches.push(m);
        k = k + 1;
    }
    let best_match = BestMatch {
        string: candidates[order[0]].clone(),
        score: scores[order[0]],
    };
    let has_tie = all_matches.len() > 1;
    let res = BestMatchResult { best_match, all_matches, has_tie };
    assert(holds_candidate(res.all_matches@[0], candidates@, scores@, order@[0] as int));
    Ok(res)
}

/// Scores two strings after normalizing both, under the given algorithm
/// (Jaro-Winkler when none is given). The result is the bit pattern of an
/// `f64` in [0, 1]; equal strings score 1.0.
pub fn string_similarity(s1: String, s2: String, algorithm: Option<SimilarityAlgorithm>) -> (r: u64)
    ensures
        r == similarity(s1@, s2@, resolved_algorithm(algorithm)),
        is_score(r),
        s1@ == s2@ ==> r == ONE_BITS,
        resolved_algorithm(algorithm) == SimilarityAlgorithm::LevenshteinSimilarity
            ==> r == similarity(s2@, s1@, resolved_algorithm(algorithm)),
{
    let a = normalize(s1.as_str());
    let b = normalize(s2.as_str());
    let alg = match algorithm {
        Some(x) => x,
        None => SimilarityAlgorithm::JaroWinkler,
    };
    score_pair(alg, &a, &b)
}

fn score_pair(algorithm: SimilarityAlgorithm, a: &String, b: &String) -> (r: u64)
    ensures
        r == pair_score(algorithm, a@, b@),
        is_score(r),
        a@ == b@ ==> r == ONE_BITS,
        algorithm == SimilarityAlgorithm::LevenshteinSimilarity ==> r == pair_score(algorithm, b@, a@),
{
    match algorithm {
        SimilarityAlgorithm::JaroWinkler => jaro_winkler_bits(a.as_str(), b.as_str()),
        SimilarityAlgorithm::LevenshteinSimilarity => normalized_levenshtein_bits(a.as_str(), b.as_str()),
    }
}

/// Finds the candidates that best match `target`. Target and candidates are
/// normalized and scored with the chosen algorithm; candidates scoring below
/// the threshold are dropped; the rest within `f64::EPSILON` of the top score
/// are returned by descending score, equal scores in candidate order, each
/// with its text as given (not normalized).
pub fn find_best_match(
    target: String,
    candidates: Vec<String>,
    options: Option<FindBestMatchOptions>,
) -> (r: Result<BestMatchResult, MatchError>)
    ensures
        selects(
            candidates@,
            candidate_scores(target@, candidates@, options_algorithm(options)),
            options_threshold(options),
            r,
        ),
{
    if candidates.len() == 0 {
        return Err(MatchError::EmptyCandidates);
    }
    let target_norm = normalize(target.as_str());
    let (algorithm, threshold) = match options {
        Some(o) => (
            match o.algorithm {
                Some(a) => a,
                None => SimilarityAlgorithm::JaroWinkler,
            },
            match o.threshold {
                Some(t) => t,
                None => 0,
            },
        ),
        None => (SimilarityAlgorithm::JaroWinkler, 0),
    };
    let ghost expected = candidate_scores(target@, candidates@, algorithm);
    let mut scores: Vec<u64> = Vec::new();
    let mut i: usize = 0;
    while i < candidates.len()
        invariant
            i <= candidates@.len(),
            target_norm@ == normalized(target@),
            expected == candidate_scores(target@, candidates@, algorithm),
            scores@.len() == i,
            forall|j: int| 0 <= j < i ==> scores@[j] == expected[j],
            forall|j: int| 0 <= j < i ==> is_score(#[trigger] scores@[j]),
        decreases candidates@.len() - i,
    {
        let cand_norm = normalize(candidates[i].as_str());
        let s = score_pair(algorithm, &target_norm, &cand_norm);
        scores.push(s);
        i = i + 1;
    }
    assert(scores@ == expected);
    select_best_match(&candidates, &scores, threshold)
}

/// Edit distance between the two strings as given (no normalization), or
/// `DistanceOverflow` when it does not fit in an `i32`.
pub fn levenshtein_distance(s1: String, s2: String) -> (r: Result<i32, MatchError>)
    ensures
        edit_distance(s1@, s2@) <= i32::MAX ==> r == Ok::<i32, MatchError>(edit_distance(s1@, s2@) as i32),
        edit_distance(s1@, s2@) > i32::MAX ==> r == Err::<i32, MatchError>(MatchError::DistanceOverflow),
        s1@ == s2@ ==> r == Ok::<i32, MatchError>(0),
{
    let d = char_edit_distance(s1.as_str(), s2.as_str());
    proof {
        if s1@ == s2@ {
            lemma_edit_distance_self(s1@);
        }
    }
    if d <= i32::MAX as usize {
        Ok(d as i32)
    } else {
        Err(MatchError::DistanceOverflow)
    }
}

/// Indices of the candidates whose score meets the threshold.
pub open spec fn considered(scores: Seq<u64>, threshold: u64) -> Set<int> {
    Set::new(|i: int| 0 <= i < scores.len() && meets_threshold(scores[i], threshold))
}

/// A successful search returns its best match among all its matches, and
/// every match carries the text of one of the candidates.
pub proof fn lemma_matches_are_candidates(
    candidates: Seq<String>,
    scores: Seq<u64>,
    threshold: u64,
    res: BestMatchResult,
)
    requires
        candidates.len() == scores.len(),
        selects(candidates, scores, threshold, Ok(res)),
    ensures
        exists|k: int| 0 <= k < res.all_matches@.len()
            && (#[trigger] res.all_matches@[k]).string@ == res.best_match.string@
            && res.all_matches@[k].score == res.best_match.score,
        forall|k: int| 0 <= k < res.all_matches@.len() ==> exists|i: int|
            0 <= i < candidates.len() && (#[trigger] res.all_matches@[k]).string@ == candidates[i]@,
{
    let order = choose|order: Seq<usize>| {
        &&& ranks_tied(scores, threshold, order)
        &&& res.all_matches@.len() == order.len()
        &&& forall|k: int| 0 <= k < order.len() ==>
            holds_candidate(#[trigger] res.all_matches@[k], candidates, scores, order[k] as int)
    };
    assert(res.all_matches@[0].string@ == res.best_match.string@);
    assert forall|k: int| 0 <= k < res.all_matches@.len() implies exists|i: int|
        0 <= i < candidates.len() && (#[trigger] res.all_matches@[k]).string@ == candidates[i]@ by {
        assert(holds_candidate(res.all_matches@[k], candidates, scores, order[k] as int));
        assert(order[k] < scores.len());
    }
}

/// Raising the threshold never adds a candidate to those considered.
pub proof fn lemma_threshold_monotone(scores: Seq<u64>, low: u64, high: u64)
    requires
        forall|i: int| 0 <= i < scores.len() ==> is_score(#[trigger] scores[i]),
        !is_nan(low),
        !is_nan(high),
        signed_value(low) <= signed_value(high),
    ensures
        considered(scores, high).subset_of(considered(scores, low)),
{
    assert forall|i: int| considered(scores, high).contains(i) implies considered(scores, low).contains(i) by {
        assert(is_score(scores[i]));
    }
}

} // verus!
