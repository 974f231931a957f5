use ffzf::algorithm::Algorithm;
use ffzf::internal_scorer::{hamming_between, jaro_winkler_between, levenshtein_between};
use ffzf::score::{MatchError, Score, Threshold};

#[test]
fn levenshtein_between_normalized_sequences() {
    let a: Vec<char> = "kitten".chars().collect();
    let b: Vec<char> = "sitting".chars().collect();
    assert_eq!(levenshtein_between(&a, &b), Ok(Score { num: 3, den: 1 }));
    assert_eq!(levenshtein_between(&b, &a), Ok(Score { num: 3, den: 1 }));
    assert_eq!(levenshtein_between(&a, &a), Ok(Score { num: 0, den: 1 }));
    assert_eq!(levenshtein_between(&Vec::new(), &Vec::new()), Ok(Score { num: 0, den: 1 }));
}

#[test]
fn hamming_between_normalized_sequences() {
    let a: Vec<char> = "abc".chars().collect();
    let b: Vec<char> = "xbz".chars().collect();
    let short: Vec<char> = "ab".chars().collect();
    assert_eq!(hamming_between(&a, &b), Ok(Score { num: 2, den: 1 }));
    assert_eq!(hamming_between(&a, &a), Ok(Score { num: 0, den: 1 }));
    assert_eq!(hamming_between(&a, &short), Err(MatchError::IncompatibleOperands));
    assert_eq!(hamming_between(&short, &a), Err(MatchError::IncompatibleOperands));
}

#[test]
fn jaro_winkler_between_normalized_sequences() {
    let a: Vec<char> = "DWAYNE".chars().collect();
    let b: Vec<char> = "DUANE".chars().collect();
    let zero = Threshold { num: 0, den: 1 };
    let jaro = Score { num: 4 * 5 * 4 + 4 * 6 * 4 + 4 * 6 * 5, den: 3 * 6 * 5 * 4 };
    let expected = Score { num: 10 * jaro.num + (jaro.den - jaro.num), den: 10 * jaro.den };
    assert_eq!(jaro_winkler_between(&a, &b, zero), Ok(expected));
    let value = expected.num as f64 / expected.den as f64;
    assert!((value - 0.84).abs() < 1e-9);
    let above_one = Threshold { num: 5, den: 4 };
    assert_eq!(jaro_winkler_between(&a, &b, above_one), Err(MatchError::InvalidRange));
}

#[test]
fn jaro_winkler_is_symmetric_where_jaro_is() {
    let zero = Threshold { num: 0, den: 1 };
    for (s, t) in [("MARTHA", "MARHTA"), ("DWAYNE", "DUANE"), ("abcd", "abdc")] {
        let a: Vec<char> = s.chars().collect();
        let b: Vec<char> = t.chars().collect();
        let forth = jaro_winkler_between(&a, &b, zero).unwrap();
        let back = jaro_winkler_between(&b, &a, zero).unwrap();
        assert_eq!(forth.num as u128 * back.den as u128, back.num as u128 * forth.den as u128);
    }
}

#[test]
fn identifiers_are_matched_letter_for_letter() {
    assert_eq!(Algorithm::from_identifier("LEVENSHTEIN"), Some(Algorithm::Levenshtein));
    assert_eq!(Algorithm::from_identifier("JARO"), Some(Algorithm::Jaro));
    assert_eq!(Algorithm::from_identifier("JAROWINKLER"), Some(Algorithm::JaroWinkler));
    assert_eq!(Algorithm::from_identifier("HAMMING"), Some(Algorithm::Hamming));
    assert_eq!(Algorithm::from_identifier("hamming"), None);
    assert_eq!(Algorithm::from_identifier(""), None);
}

#[test]
fn algorithms_score_through_one_entry() {
    let target: Vec<char> = "abc".chars().collect();
    let zero = Threshold { num: 0, den: 1 };
    assert_eq!(Algorithm::Levenshtein.score("abd", &target, true, false, zero), Ok(Score { num: 1, den: 1 }));
    assert_eq!(Algorithm::Hamming.score("xbd", &target, true, false, zero), Ok(Score { num: 2, den: 1 }));
    assert_eq!(Algorithm::Jaro.score("abc", &target, true, false, zero), Ok(Score { num: 1, den: 1 }));
    assert_eq!(Algorithm::JaroWinkler.score("ABC", &target, false, false, zero), Ok(Score { num: 10, den: 10 }));
    assert_eq!(Algorithm::JaroWinkler.score("ABC", &target, true, false, zero), Ok(Score { num: 0, den: 1 }));
}
