use std::cmp::Ordering;

use ffzf::algorithm::{is_valid_algorithm_name, Algorithm};
use ffzf::finder::{
    best_index, closest, closest_index_pair, closest_with_score, collect_scores, n_best, n_closest,
    n_closest_with_score, score_window,
};
use ffzf::ranking::{compare_entries, sort_scores};
use ffzf::score::{MatchError, Score, Threshold};

fn zero() -> Threshold {
    Threshold { num: 0, den: 1 }
}

fn whole(d: u64) -> Score {
    Score { num: d as u128, den: 1 }
}

#[test]
fn closest_prefers_the_smallest_levenshtein_distance() {
    let found = closest("kitten", vec!["sitting", "kitchen", "mitten"], "LEVENSHTEIN", false, false, zero());
    assert_eq!(found, Ok(String::from("mitten")));
    let scored =
        closest_with_score("kitten", vec!["sitting", "kitchen", "mitten"], "LEVENSHTEIN", false, false, zero());
    assert_eq!(scored, Ok((String::from("mitten"), whole(1))));
}

#[test]
fn n_closest_gives_the_two_best_in_order() {
    let found = n_closest("kitten", vec!["sitting", "kitchen", "mitten"], 2, "LEVENSHTEIN", false, false, zero());
    assert_eq!(found, Ok(vec![String::from("mitten"), String::from("kitchen")]));
    let scored =
        n_closest_with_score("kitten", vec!["sitting", "kitchen", "mitten"], 3, "LEVENSHTEIN", false, false, zero());
    assert_eq!(
        scored,
        Ok(vec![
            (String::from("mitten"), whole(1)),
            (String::from("kitchen"), whole(2)),
            (String::from("sitting"), whole(3)),
        ])
    );
}

#[test]
fn closest_by_hamming_finds_the_equal_candidate() {
    let scored = closest_with_score("abc", vec!["abd", "abc", "xyz"], "HAMMING", false, false, zero());
    assert_eq!(scored, Ok((String::from("abc"), whole(0))));
}

#[test]
fn closest_by_hamming_refuses_a_length_mismatch() {
    assert_eq!(
        closest("ab", vec!["abc"], "HAMMING", false, false, zero()),
        Err(MatchError::IncompatibleOperands)
    );
    assert_eq!(
        closest("abc", vec!["abd", "ab", "xyz"], "hamming", false, false, zero()),
        Err(MatchError::IncompatibleOperands)
    );
    assert_eq!(
        n_closest("abc", vec!["abd", "ab"], 1, "HAMMING", false, false, zero()),
        Err(MatchError::IncompatibleOperands)
    );
}

#[test]
fn hamming_mismatch_after_normalization_is_an_error() {
    assert_eq!(
        closest("abc", vec!["a c"], "HAMMING", false, true, zero()),
        Err(MatchError::IncompatibleOperands)
    );
}

#[test]
fn closest_by_jaro_winkler_scores_martha() {
    let scored = closest_with_score("MARTHA", vec!["MARHTA"], "JAROWINKLER", false, false, zero()).unwrap();
    assert_eq!(scored.0, "MARHTA");
    assert_eq!(scored.1, Score { num: 6228, den: 6480 });
    let value = scored.1.num as f64 / scored.1.den as f64;
    assert!((value - 0.961).abs() < 1e-3);
}

#[test]
fn closest_index_pair_finds_the_window() {
    assert_eq!(closest_index_pair("abc", "xxabcxx", "LEVENSHTEIN", false, false, zero()), Ok((2, 5)));
    assert_eq!(closest_index_pair("ABC", "xxabcxx", "hamming", false, false, zero()), Ok((2, 5)));
    assert_eq!(closest_index_pair("abc", "abc", "JARO", false, false, zero()), Ok((0, 3)));
}

#[test]
fn closest_index_pair_takes_the_first_of_equal_windows() {
    assert_eq!(closest_index_pair("ab", "xxabxxab", "LEVENSHTEIN", false, false, zero()), Ok((2, 4)));
}

#[test]
fn closest_index_pair_of_an_empty_text_is_zero_zero() {
    assert_eq!(closest_index_pair("abc", "", "LEVENSHTEIN", false, false, zero()), Ok((0, 0)));
    assert_eq!(closest_index_pair("abc", "", "nothing", false, false, zero()), Ok((0, 0)));
}

#[test]
fn closest_index_pair_refuses_a_target_longer_than_the_text() {
    assert_eq!(
        closest_index_pair("abcdef", "abc", "LEVENSHTEIN", false, false, zero()),
        Err(MatchError::InvalidArgument)
    );
}

#[test]
fn closest_index_pair_refuses_an_unknown_algorithm() {
    assert_eq!(
        closest_index_pair("abc", "xxabcxx", "COSINE", false, false, zero()),
        Err(MatchError::InvalidArgument)
    );
}

#[test]
fn closest_index_pair_counts_characters() {
    assert_eq!(closest_index_pair("bc", "ñ→abc", "LEVENSHTEIN", true, false, zero()), Ok((3, 5)));
}

#[test]
fn searches_refuse_no_candidates() {
    assert_eq!(n_closest("x", vec![], 1, "LEVENSHTEIN", false, false, zero()), Err(MatchError::InvalidArgument));
    assert_eq!(
        n_closest_with_score("x", vec![], 1, "LEVENSHTEIN", false, false, zero()),
        Err(MatchError::InvalidArgument)
    );
    assert_eq!(closest("x", vec![], "LEVENSHTEIN", false, false, zero()), Err(MatchError::InvalidArgument));
    assert_eq!(
        closest_with_score("x", vec![], "LEVENSHTEIN", false, false, zero()),
        Err(MatchError::InvalidArgument)
    );
}

#[test]
fn n_closest_refuses_a_count_out_of_range() {
    assert_eq!(
        n_closest("x", vec!["a", "b"], 0, "LEVENSHTEIN", false, false, zero()),
        Err(MatchError::InvalidArgument)
    );
    assert_eq!(
        n_closest("x", vec!["a", "b"], 3, "LEVENSHTEIN", false, false, zero()),
        Err(MatchError::InvalidArgument)
    );
    assert_eq!(n_closest("x", vec!["a", "b"], 2, "LEVENSHTEIN", false, false, zero()).unwrap().len(), 2);
}

#[test]
fn searches_refuse_an_unknown_algorithm() {
    assert_eq!(closest("x", vec!["a"], "COSINE", false, false, zero()), Err(MatchError::InvalidArgument));
    assert_eq!(n_closest("x", vec!["a"], 1, "", false, false, zero()), Err(MatchError::InvalidArgument));
}

#[test]
fn searches_pass_on_a_bad_threshold() {
    let bad = Threshold { num: 3, den: 2 };
    assert_eq!(closest("x", vec!["a"], "JAROWINKLER", false, false, bad), Err(MatchError::InvalidRange));
    assert_eq!(closest("x", vec!["a"], "JARO", false, false, bad), Ok(String::from("a")));
}

#[test]
fn algorithm_names_are_case_insensitive() {
    assert_eq!(Algorithm::from_name("levenshtein"), Some(Algorithm::Levenshtein));
    assert_eq!(Algorithm::from_name("Jaro"), Some(Algorithm::Jaro));
    assert_eq!(Algorithm::from_name("jaroWinkler"), Some(Algorithm::JaroWinkler));
    assert_eq!(Algorithm::from_name("HAMMING"), Some(Algorithm::Hamming));
    assert_eq!(Algorithm::from_name("JARO "), None);
    assert!(is_valid_algorithm_name("hamming"));
    assert!(!is_valid_algorithm_name("jaro-winkler"));
}

#[test]
fn distances_ascend_and_similarities_descend() {
    assert!(Algorithm::Levenshtein.is_ascending());
    assert!(Algorithm::Hamming.is_ascending());
    assert!(!Algorithm::Jaro.is_ascending());
    assert!(!Algorithm::JaroWinkler.is_ascending());
}

#[test]
fn closest_by_jaro_prefers_the_highest_similarity() {
    let found = closest("martha", vec!["xyz", "marhta", "mart"], "JARO", false, false, zero());
    assert_eq!(found, Ok(String::from("marhta")));
    let ranked = n_closest("martha", vec!["xyz", "marhta", "martha"], 3, "jaro", false, false, zero());
    assert_eq!(ranked, Ok(vec![String::from("martha"), String::from("marhta"), String::from("xyz")]));
}

#[test]
fn closest_takes_the_first_of_equal_candidates() {
    let found = closest("abc", vec!["abd", "abe", "abf"], "LEVENSHTEIN", false, false, zero());
    assert_eq!(found, Ok(String::from("abd")));
}

#[test]
fn closest_folds_case_unless_sensitive() {
    let folded = closest_with_score("KITTEN", vec!["kitten", "MITTEN"], "LEVENSHTEIN", false, false, zero());
    assert_eq!(folded, Ok((String::from("kitten"), whole(0))));
    let kept = closest_with_score("KITTEN", vec!["kitten", "MITTEN"], "LEVENSHTEIN", true, false, zero());
    assert_eq!(kept, Ok((String::from("MITTEN"), whole(1))));
}

#[test]
fn n_closest_orders_alike_below_and_above_a_thousand_candidates() {
    let words: Vec<String> = (0..1500).map(|i| "a".repeat(1 + (i * 7) % 23)).collect();
    let many: Vec<&str> = words.iter().map(|w| w.as_str()).collect();
    let few: Vec<&str> = many[..900].to_vec();
    let from_many = n_closest_with_score("aaaaa", many.clone(), 1500, "LEVENSHTEIN", false, false, zero()).unwrap();
    let from_few = n_closest_with_score("aaaaa", few.clone(), 900, "LEVENSHTEIN", false, false, zero()).unwrap();
    assert_eq!(from_many.len(), 1500);
    assert_eq!(from_few.len(), 900);
    for found in [&from_many, &from_few] {
        for pair in found.windows(2) {
            assert!(pair[0].1.num <= pair[1].1.num);
        }
        for (word, score) in found.iter() {
            assert!(many.contains(&word.as_str()));
            let apart = if word.len() > 5 { word.len() - 5 } else { 5 - word.len() };
            assert_eq!(score.num, apart as u128);
        }
    }
    assert_eq!(from_many[0], (String::from("aaaaa"), whole(0)));
}

#[test]
fn sort_scores_orders_by_score_then_index() {
    let mut small = vec![(0, whole(3)), (1, whole(1)), (2, whole(2)), (3, whole(1))];
    sort_scores(&mut small, true);
    assert_eq!(small, vec![(1, whole(1)), (3, whole(1)), (2, whole(2)), (0, whole(3))]);
    sort_scores(&mut small, false);
    assert_eq!(small, vec![(0, whole(3)), (2, whole(2)), (1, whole(1)), (3, whole(1))]);
    let mut large: Vec<(usize, Score)> = (0..3000).map(|i| (i, whole(((i * 37) % 101) as u64))).collect();
    let mut expected = large.clone();
    expected.sort_by(|x, y| (x.1.num, x.0).cmp(&(y.1.num, y.0)));
    sort_scores(&mut large, true);
    assert_eq!(large, expected);
}

#[test]
fn compare_entries_breaks_ties_by_index() {
    let half = Score { num: 1, den: 2 };
    let two_quarters = Score { num: 2, den: 4 };
    assert_eq!(compare_entries(&(0, half), &(1, two_quarters), true), Ordering::Less);
    assert_eq!(compare_entries(&(1, half), &(0, two_quarters), false), Ordering::Greater);
    assert_eq!(compare_entries(&(1, half), &(1, two_quarters), false), Ordering::Equal);
    assert_eq!(compare_entries(&(5, whole(1)), &(0, whole(2)), true), Ordering::Less);
    assert_eq!(compare_entries(&(5, whole(1)), &(0, whole(2)), false), Ordering::Greater);
}

#[test]
fn n_best_picks_indices_best_first() {
    let scores = vec![whole(4), whole(1), whole(3), whole(1), whole(0)];
    assert_eq!(n_best(&scores, 3, true), vec![4, 1, 3]);
    assert_eq!(n_best(&scores, 2, false), vec![0, 2]);
    assert_eq!(best_index(&scores, true), 4);
    assert_eq!(best_index(&scores, false), 0);
    assert_eq!(best_index(&vec![whole(1), whole(1)], true), 0);
}

#[test]
fn collect_scores_gives_the_first_error() {
    let outs = vec![
        Ok(whole(1)),
        Err(MatchError::IncompatibleOperands),
        Err(MatchError::InvalidRange),
    ];
    assert_eq!(collect_scores(&outs), Err(MatchError::IncompatibleOperands));
    assert_eq!(collect_scores(&vec![Ok(whole(1)), Ok(whole(2))]), Ok(vec![whole(1), whole(2)]));
}

#[test]
fn score_window_scores_the_characters_of_the_window() {
    let target: Vec<char> = "abc".chars().collect();
    let hit = score_window("xxabcxx", 2, 3, &target, Algorithm::Levenshtein, true, false, zero());
    assert_eq!(hit, Ok(whole(0)));
    let miss = score_window("xxabcxx", 0, 3, &target, Algorithm::Levenshtein, true, false, zero());
    assert_eq!(miss, Ok(whole(3)));
}
