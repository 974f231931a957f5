//! The four metrics, each between a raw operand, which it normalizes, and a
//! target that is normalized already.

use vstd::prelude::*;
use crate::utils::{char_vec, normalized};
use crate::score::{Score, Threshold, MatchError, length};
use crate::levenshtein::{
    distance,
    edit_distance,
    lemma_distance_identity,
    lemma_distance_symmetric,
    lemma_distance_triangle,
    lemma_distance_upper,
};
use crate::hamming::{
    count_differing,
    hamming_distance,
    lemma_hamming_identity,
    lemma_hamming_symmetric,
};
use crate::jaro::{
    jaro_fits,
    jaro_winkler_fits,
    jaro_similarity,
    jaro_winkler_similarity,
    similarity,
    boosted_similarity,
    lemma_jaro_in_unit_range,
    lemma_jaro_winkler_not_below,
};

verus! {

/// The Levenshtein distance of two normalized sequences as a score, or the
/// refusal of a sequence whose table cannot be indexed.
pub open spec fn levenshtein_outcome(a: Seq<char>, b: Seq<char>) -> Result<Score, MatchError> {
    if a.len() >= usize::MAX || b.len() >= usize::MAX {
        Err(MatchError::OperandTooLong)
    } else {
        Ok(Score { num: edit_distance(a, b) as u128, den: 1 })
    }
}

/// The Hamming distance of two normalized sequences as a score, or the
/// refusal of sequences of different lengths.
pub open spec fn hamming_outcome(a: Seq<char>, b: Seq<char>) -> Result<Score, MatchError> {
    if a.len() != b.len() {
        Err(MatchError::IncompatibleOperands)
    } else {
        Ok(Score { num: hamming_distance(a, b) as u128, den: 1 })
    }
}

/// The Jaro similarity of two normalized sequences, or the refusal of
/// sequences whose similarity has a denominator beyond 128 bits.
pub open spec fn jaro_outcome(a: Seq<char>, b: Seq<char>) -> Result<Score, MatchError> {
    if jaro_fits(a, b) {
        Ok(jaro_similarity(a, b))
    } else {
        Err(MatchError::OperandTooLong)
    }
}

/// The Jaro-Winkler similarity of two normalized sequences, or the refusal
/// of a threshold outside `[0, 1]` or of sequences whose similarity has a
/// denominator beyond 128 bits.
pub open spec fn jaro_winkler_outcome(a: Seq<char>, b: Seq<char>, threshold: Threshold) -> Result<
    Score,
    MatchError,
> {
    if !threshold.in_unit_range() {
        Err(MatchError::InvalidRange)
    } else if jaro_winkler_fits(a, b, threshold) {
        Ok(jaro_winkler_similarity(a, b, threshold))
    } else {
        Err(MatchError::OperandTooLong)
    }
}

/// Levenshtein distance between two normalized sequences.
pub fn levenshtein_between(a: &Vec<char>, b: &Vec<char>) -> (r: Result<Score, MatchError>)
    ensures
        r == levenshtein_outcome(a@, b@),
{
    if a.len() == usize::MAX || b.len() == usize::MAX {
        return Err(MatchError::OperandTooLong);
    }
    let d = distance(a, b);
    Ok(Score::whole(length(d)))
}

/// Hamming distance between two normalized sequences.
pub fn hamming_between(a: &Vec<char>, b: &Vec<char>) -> (r: Result<Score, MatchError>)
    ensures
        r == hamming_outcome(a@, b@),
{
    if a.len() != b.len() {
        return Err(MatchError::IncompatibleOperands);
    }
    let d = count_differing(a, b, a.len());
    Ok(Score::whole(length(d)))
}

/// Jaro-Winkler similarity between two normalized sequences.
pub fn jaro_winkler_between(a: &Vec<char>, b: &Vec<char>, threshold: Threshold) -> (r: Result<
    Score,
    MatchError,
>)
    ensures
        r == jaro_winkler_outcome(a@, b@, threshold),
{
    if !threshold.is_in_unit_range() {
        return Err(MatchError::InvalidRange);
    }
    match boosted_similarity(a, b, &threshold) {
        None => Err(MatchError::OperandTooLong),
        Some(score) => Ok(score),
    }
}

/// Levenshtein distance between `word1`, normalized here, and the
/// normalized `word2_chars`. The threshold plays no part.
pub fn levenshtein_distance_target_preprocessed(
    word1: &str,
    word2_chars: &Vec<char>,
    case_sensitive: bool,
    remove_whitespace: bool,
    _threshold: Threshold,
) -> (r: Result<Score, MatchError>)
    ensures
        r == levenshtein_outcome(
            normalized(word1@, case_sensitive, remove_whitespace),
            word2_chars@,
        ),
{
    let word1_chars = char_vec(word1, case_sensitive, remove_whitespace);
    levenshtein_between(&word1_chars, word2_chars)
}

/// Jaro similarity between `word1`, normalized here, and the normalized
/// `word2_chars`. The threshold plays no part.
pub fn jaro_similarity_target_preprocessed(
    word1: &str,
    word2_chars: &Vec<char>,
    case_sensitive: bool,
    remove_whitespace: bool,
    _threshold: Threshold,
) -> (r: Result<Score, MatchError>)
    ensures
        r == jaro_outcome(normalized(word1@, case_sensitive, remove_whitespace), word2_chars@),
{
    let word1_chars = char_vec(word1, case_sensitive, remove_whitespace);
    jaro_similarity_target_matched_preprocessed(&word1_chars, word2_chars)
}

/// Jaro similarity between two normalized sequences.
pub fn jaro_similarity_target_matched_preprocessed(
    word1_chars: &Vec<char>,
    word2_chars: &Vec<char>,
) -> (r: Result<Score, MatchError>)
    ensures
        r == jaro_outcome(word1_chars@, word2_chars@),
{
    match similarity(word1_chars, word2_chars) {
        None => Err(MatchError::OperandTooLong),
        Some(score) => Ok(score),
    }
}

/// Jaro-Winkler similarity between `word1`, normalized here, and the
/// normalized `word2_chars`, boosted where the Jaro similarity exceeds
/// `threshold`.
pub fn jaro_winkler_similarity_target_preprocessed(
    word1: &str,
    word2_chars: &Vec<char>,
    case_sensitive: bool,
    remove_whitespace: bool,
    threshold: Threshold,
) -> (r: Result<Score, MatchError>)
    ensures
        r == jaro_winkler_outcome(
            normalized(word1@, case_sensitive, remove_whitespace),
            word2_chars@,
            threshold,
        ),
{
    if !threshold.is_in_unit_range() {
        return Err(MatchError::InvalidRange);
    }
    let word1_chars = char_vec(word1, case_sensitive, remove_whitespace);
    jaro_winkler_between(&word1_chars, word2_chars, threshold)
}

/// Hamming distance between `word1`, normalized here, and the normalized
/// `word2_chars`. The threshold plays no part.
pub fn hamming_distance_target_preprocessed(
    word1: &str,
    word2_chars: &Vec<char>,
    case_sensitive: bool,
    remove_whitespace: bool,
    _threshold: Threshold,
) -> (r: Result<Score, MatchError>)
    ensures
        r == hamming_outcome(normalized(word1@, case_sensitive, remove_whitespace), word2_chars@),
{
    let word1_chars = char_vec(word1, case_sensitive, remove_whitespace);
    hamming_between(&word1_chars, word2_chars)
}

/// Hamming distance is never given for operands of different lengths.
pub proof fn lemma_hamming_refuses_mismatch(a: Seq<char>, b: Seq<char>)
    ensures
        a.len() != b.len() <==> hamming_outcome(a, b) == Err::<Score, MatchError>(
            MatchError::IncompatibleOperands,
        ),
{
}

/// Every score that a metric gives has a positive denominator.
pub proof fn lemma_outcomes_well_formed(a: Seq<char>, b: Seq<char>, threshold: Threshold)
    ensures
        levenshtein_outcome(a, b) is Ok ==> levenshtein_outcome(a, b)->Ok_0.wf(),
        hamming_outcome(a, b) is Ok ==> hamming_outcome(a, b)->Ok_0.wf(),
        jaro_outcome(a, b) is Ok ==> jaro_outcome(a, b)->Ok_0.wf(),
        jaro_winkler_outcome(a, b, threshold) is Ok ==> jaro_winkler_outcome(
            a,
            b,
            threshold,
        )->Ok_0.wf(),
{
    if jaro_fits(a, b) {
        lemma_jaro_in_unit_range(a, b);
    }
    if jaro_winkler_fits(a, b, threshold) {
        lemma_jaro_winkler_not_below(a, b, threshold);
    }
}

/// Every sequence short enough for the table is at Levenshtein distance
/// zero from itself.
pub proof fn lemma_levenshtein_outcome_identity(a: Seq<char>)
    requires
        a.len() < usize::MAX,
    ensures
        levenshtein_outcome(a, a) == Ok::<Score, MatchError>(Score { num: 0, den: 1 }),
{
    lemma_distance_identity(a);
}

/// What Levenshtein gives does not depend on the order of the operands.
pub proof fn lemma_levenshtein_outcome_symmetric(a: Seq<char>, b: Seq<char>)
    ensures
        levenshtein_outcome(a, b) == levenshtein_outcome(b, a),
{
    lemma_distance_symmetric(a, b);
}

/// The Levenshtein scores of sequences short enough for the table obey the
/// triangle inequality.
pub proof fn lemma_levenshtein_outcome_triangle(a: Seq<char>, b: Seq<char>, c: Seq<char>)
    requires
        a.len() < usize::MAX,
        b.len() < usize::MAX,
        c.len() < usize::MAX,
    ensures
        levenshtein_outcome(a, c) is Ok,
        levenshtein_outcome(a, b) is Ok,
        levenshtein_outcome(b, c) is Ok,
        levenshtein_outcome(a, c)->Ok_0.num <= levenshtein_outcome(a, b)->Ok_0.num
            + levenshtein_outcome(b, c)->Ok_0.num,
{
    lemma_distance_triangle(a, b, c);
    lemma_distance_upper(a, c);
    lemma_distance_upper(a, b);
    lemma_distance_upper(b, c);
}

/// Every sequence is at Hamming distance zero from itself.
pub proof fn lemma_hamming_outcome_identity(a: Seq<char>)
    ensures
        hamming_outcome(a, a) == Ok::<Score, MatchError>(Score { num: 0, den: 1 }),
{
    lemma_hamming_identity(a);
}

/// What Hamming gives does not depend on the order of the operands.
pub proof fn lemma_hamming_outcome_symmetric(a: Seq<char>, b: Seq<char>)
    ensures
        hamming_outcome(a, b) == hamming_outcome(b, a),
{
    if a.len() == b.len() {
        lemma_hamming_symmetric(a, b);
    }
}

/// Every sequence, whatever its length, has Jaro similarity one with itself.
pub proof fn lemma_jaro_outcome_identity(a: Seq<char>)
    ensures
        jaro_outcome(a, a) == Ok::<Score, MatchError>(Score { num: 1, den: 1 }),
{
}

/// Every sequence, whatever its length, has Jaro-Winkler similarity one
/// with itself under every threshold in `[0, 1]`.
pub proof fn lemma_jaro_winkler_outcome_identity(a: Seq<char>, threshold: Threshold)
    requires
        threshold.in_unit_range(),
    ensures
        jaro_winkler_outcome(a, a, threshold) is Ok,
        jaro_winkler_outcome(a, a, threshold)->Ok_0.same(Score { num: 1, den: 1 }),
{
    let one = Score { num: 1, den: 1 };
    assert(jaro_similarity(a, a) == one);
    lemma_jaro_winkler_not_below(a, a, threshold);
}

} // verus!
