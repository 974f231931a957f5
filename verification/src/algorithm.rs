//! The four algorithms by name, and the one function that scores with any of
//! them.

use vstd::prelude::*;
use crate::utils::{chars_of, normalized, uppercase, uppercase_of};
use crate::jaro::same_chars;
use crate::score::{Score, Threshold, MatchError};
use crate::internal_scorer::{
    levenshtein_outcome,
    hamming_outcome,
    jaro_outcome,
    jaro_winkler_outcome,
    levenshtein_distance_target_preprocessed,
    hamming_distance_target_preprocessed,
    jaro_similarity_target_preprocessed,
    jaro_winkler_similarity_target_preprocessed,
    lemma_outcomes_well_formed,
};

verus! {

/// A supported algorithm.
#[derive(Clone, Copy, Debug, PartialEq, Eq, Structural)]
pub enum Algorithm {
    Levenshtein,
    Jaro,
    JaroWinkler,
    Hamming,
}

/// The algorithm whose identifier is `upper`, letter for letter.
pub open spec fn algorithm_identified(upper: Seq<char>) -> Option<Algorithm> {
    if upper == "LEVENSHTEIN"@ {
        Some(Algorithm::Levenshtein)
    } else if upper == "JARO"@ {
        Some(Algorithm::Jaro)
    } else if upper == "JAROWINKLER"@ {
        Some(Algorithm::JaroWinkler)
    } else if upper == "HAMMING"@ {
        Some(Algorithm::Hamming)
    } else {
        None
    }
}

/// The algorithm that `name` stands for, whatever its case.
pub open spec fn algorithm_named(name: Seq<char>) -> Option<Algorithm> {
    algorithm_identified(uppercase_of(name))
}

/// Every score that an algorithm gives has a positive denominator.
pub proof fn lemma_outcome_well_formed(
    algorithm: Algorithm,
    a: Seq<char>,
    b: Seq<char>,
    threshold: Threshold,
)
    ensures
        outcome(algorithm, a, b, threshold) is Ok ==> outcome(algorithm, a, b, threshold)->Ok_0.wf(),
{
    lemma_outcomes_well_formed(a, b, threshold);
}

/// What `algorithm` gives for the normalized operand `a` against the
/// normalized target `b`.
pub open spec fn outcome(algorithm: Algorithm, a: Seq<char>, b: Seq<char>, threshold: Threshold) -> Result<
    Score,
    MatchError,
> {
    match algorithm {
        Algorithm::Levenshtein => levenshtein_outcome(a, b),
        Algorithm::Jaro => jaro_outcome(a, b),
        Algorithm::JaroWinkler => jaro_winkler_outcome(a, b, threshold),
        Algorithm::Hamming => hamming_outcome(a, b),
    }
}

impl Algorithm {
    /// Whether a lower score is better: true of the distances, false of the
    /// similarities.
    pub open spec fn ascending(self) -> bool {
        self == Algorithm::Levenshtein || self == Algorithm::Hamming
    }

    /// Decides whether a lower score is better.
    pub fn is_ascending(&self) -> (r: bool)
        ensures
            r == self.ascending(),
    {
        match self {
            Algorithm::Levenshtein => true,
            Algorithm::Hamming => true,
            Algorithm::Jaro => false,
            Algorithm::JaroWinkler => false,
        }
    }

    /// The algorithm that `name` stands for, whatever its case, or `None` for
    /// any other name.
    pub fn from_name(name: &str) -> (r: Option<Algorithm>)
        ensures
            r == algorithm_named(name@),
    {
        let upper = uppercase(name);
        Algorithm::from_identifier(upper.as_str())
    }

    /// The algorithm whose identifier is `upper`, letter for letter, or
    /// `None` for any other string.
    pub fn from_identifier(upper: &str) -> (r: Option<Algorithm>)
        ensures
            r == algorithm_identified(upper@),
    {
        let chars = chars_of(upper);
        if same_chars(&chars, &chars_of("LEVENSHTEIN")) {
            Some(Algorithm::Levenshtein)
        } else if same_chars(&chars, &chars_of("JARO")) {
            Some(Algorithm::Jaro)
        } else if same_chars(&chars, &chars_of("JAROWINKLER")) {
            Some(Algorithm::JaroWinkler)
        } else if same_chars(&chars, &chars_of("HAMMING")) {
            Some(Algorithm::Hamming)
        } else {
            None
        }
    }

    /// Scores `word`, normalized here, against the normalized target.
    pub fn score(
        &self,
        word: &str,
        target_chars: &Vec<char>,
        case_sensitive: bool,
        remove_whitespace: bool,
        threshold: Threshold,
    ) -> (r: Result<Score, MatchError>)
        ensures
            r == outcome(
                *self,
                normalized(word@, case_sensitive, remove_whitespace),
                target_chars@,
                threshold,
            ),
            r is Ok ==> r->Ok_0.wf(),
    {
        proof {
            lemma_outcome_well_formed(
                *self,
                normalized(word@, case_sensitive, remove_whitespace),
                target_chars@,
                threshold,
            );
        }
        match self {
            Algorithm::Levenshtein => levenshtein_distance_target_preprocessed(
                word,
                target_chars,
                case_sensitive,
                remove_whitespace,
                threshold,
            ),
            Algorithm::Jaro => jaro_similarity_target_preprocessed(
                word,
                target_chars,
                case_sensitive,
                remove_whitespace,
                threshold,
            ),
            Algorithm::JaroWinkler => jaro_winkler_similarity_target_preprocessed(
                word,
                target_chars,
                case_sensitive,
                remove_whitespace,
                threshold,
            ),
            Algorithm::Hamming => hamming_distance_target_preprocessed(
                word,
                target_chars,
                case_sensitive,
                remove_whitespace,
                threshold,
            ),
        }
    }
}

/// Whether `algorithm` names one of the four algorithms, whatever its case.
pub fn is_valid_algorithm_name(algorithm: &str) -> (r: bool)
    ensures
        r == algorithm_named(algorithm@).is_some(),
{
    Algorithm::from_name(algorithm).is_some()
}

} // verus!
