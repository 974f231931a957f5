use ffzf::internal_scorer::{
    hamming_distance_target_preprocessed, jaro_similarity_target_matched_preprocessed,
    jaro_similarity_target_preprocessed, jaro_winkler_similarity_target_preprocessed,
    levenshtein_distance_target_preprocessed,
};
use ffzf::jaro::{boosted_similarity, common_prefix_weight, same_chars, similarity};
use ffzf::levenshtein::distance;
use ffzf::hamming::count_differing;
use ffzf::score::{MatchError, Score, Threshold};
use ffzf::utils::{char_vec, chars_of};

fn chars(s: &str) -> Vec<char> {
    s.chars().collect()
}

fn no_threshold() -> Threshold {
    Threshold { num: 0, den: 1 }
}

fn levenshtein(s: &str, t: &str) -> Score {
    levenshtein_distance_target_preprocessed(s, &chars(t), true, false, no_threshold()).unwrap()
}

fn jaro(s: &str, t: &str) -> Score {
    jaro_similarity_target_preprocessed(s, &chars(t), true, false, no_threshold()).unwrap()
}

fn value(score: Score) -> f64 {
    score.num as f64 / score.den as f64
}

#[test]
fn char_vec_keeps_case_when_sensitive() {
    assert_eq!(char_vec("Hello World", true, false), chars("Hello World"));
}

#[test]
fn char_vec_folds_case() {
    assert_eq!(char_vec("Hello World", false, false), chars("hello world"));
}

#[test]
fn char_vec_removes_whitespace() {
    assert_eq!(char_vec(" He llo\tWor\nld ", true, true), chars("HelloWorld"));
    assert_eq!(char_vec("A\u{2003}B\u{00a0}C", false, true), chars("abc"));
}

#[test]
fn char_vec_of_empty_string_is_empty() {
    assert_eq!(char_vec("", false, true), Vec::<char>::new());
}

#[test]
fn chars_of_keeps_unicode_order() {
    assert_eq!(chars_of("añ→z"), vec!['a', 'ñ', '→', 'z']);
}

#[test]
fn levenshtein_known_distances() {
    assert_eq!(levenshtein("kitten", "sitting"), Score { num: 3, den: 1 });
    assert_eq!(levenshtein("kitten", "kitchen"), Score { num: 2, den: 1 });
    assert_eq!(levenshtein("kitten", "mitten"), Score { num: 1, den: 1 });
    assert_eq!(levenshtein("flaw", "lawn"), Score { num: 2, den: 1 });
    assert_eq!(levenshtein("", "abc"), Score { num: 3, den: 1 });
    assert_eq!(levenshtein("abc", ""), Score { num: 3, den: 1 });
    assert_eq!(distance(&chars("saturday"), &chars("sunday")), 3);
}

#[test]
fn levenshtein_of_a_string_with_itself_is_zero() {
    for s in ["", "a", "kitten", "añ→z"] {
        assert_eq!(levenshtein(s, s), Score { num: 0, den: 1 });
    }
}

#[test]
fn levenshtein_is_symmetric() {
    let words = ["", "kitten", "sitting", "abc", "acb", "xyzzy"];
    for s in words {
        for t in words {
            assert_eq!(levenshtein(s, t), levenshtein(t, s));
        }
    }
}

#[test]
fn levenshtein_obeys_the_triangle_inequality() {
    let words = ["", "kitten", "sitting", "mitten", "abc", "kitchen"];
    for a in words {
        for b in words {
            for c in words {
                assert!(levenshtein(a, c).num <= levenshtein(a, b).num + levenshtein(b, c).num);
            }
        }
    }
}

#[test]
fn levenshtein_normalizes_the_raw_operand() {
    let score =
        levenshtein_distance_target_preprocessed("K I T T E N", &chars("kitten"), false, true, no_threshold());
    assert_eq!(score, Ok(Score { num: 0, den: 1 }));
    let kept =
        levenshtein_distance_target_preprocessed("KITTEN", &chars("kitten"), true, false, no_threshold());
    assert_eq!(kept, Ok(Score { num: 6, den: 1 }));
}

#[test]
fn hamming_counts_differing_positions() {
    let t = no_threshold();
    assert_eq!(
        hamming_distance_target_preprocessed("karolin", &chars("kathrin"), true, false, t),
        Ok(Score { num: 3, den: 1 })
    );
    assert_eq!(
        hamming_distance_target_preprocessed("abc", &chars("abc"), true, false, t),
        Ok(Score { num: 0, den: 1 })
    );
    assert_eq!(
        hamming_distance_target_preprocessed("", &chars(""), true, false, t),
        Ok(Score { num: 0, den: 1 })
    );
    assert_eq!(count_differing(&chars("abcd"), &chars("abxd"), 4), 1);
    assert_eq!(count_differing(&chars("abcd"), &chars("abxd"), 2), 0);
}

#[test]
fn hamming_is_symmetric() {
    let t = no_threshold();
    assert_eq!(
        hamming_distance_target_preprocessed("karolin", &chars("kathrin"), true, false, t),
        hamming_distance_target_preprocessed("kathrin", &chars("karolin"), true, false, t)
    );
}

#[test]
fn hamming_refuses_different_lengths() {
    let t = no_threshold();
    assert_eq!(
        hamming_distance_target_preprocessed("ab", &chars("abc"), true, false, t),
        Err(MatchError::IncompatibleOperands)
    );
    assert_eq!(
        hamming_distance_target_preprocessed("abc", &chars("ab"), true, false, t),
        Err(MatchError::IncompatibleOperands)
    );
    assert_eq!(
        hamming_distance_target_preprocessed("a b", &chars("ab"), true, false, t),
        Err(MatchError::IncompatibleOperands)
    );
}

#[test]
fn jaro_of_equal_sequences_is_one() {
    for s in ["", "a", "MARTHA"] {
        assert_eq!(jaro(s, s), Score { num: 1, den: 1 });
    }
}

#[test]
fn jaro_without_matches_is_zero() {
    assert_eq!(jaro("abc", "xyz"), Score { num: 0, den: 1 });
    assert_eq!(jaro("a", "b"), Score { num: 0, den: 1 });
    assert_eq!(jaro("", "abc"), Score { num: 0, den: 1 });
}

#[test]
fn jaro_of_martha_and_marhta() {
    let score = jaro("MARTHA", "MARHTA");
    assert_eq!(score, Score { num: 612, den: 648 });
    assert!((value(score) - 0.9444444).abs() < 1e-6);
}

#[test]
fn jaro_of_dixon_and_dicksonx() {
    let score = jaro("DIXON", "DICKSONX");
    assert_eq!(score, Score { num: 4 * 8 * 4 + 4 * 5 * 4 + 4 * 5 * 8, den: 3 * 5 * 8 * 4 });
    assert!((value(score) - 0.7666667).abs() < 1e-6);
}

#[test]
fn jaro_is_symmetric_on_common_pairs() {
    for (s, t) in [("MARTHA", "MARHTA"), ("DWAYNE", "DUANE"), ("CRATE", "TRACE")] {
        let forth = jaro(s, t);
        let back = jaro(t, s);
        assert_eq!(forth.num as u128 * back.den as u128, back.num as u128 * forth.den as u128);
    }
}

#[test]
fn jaro_on_matched_sequences_agrees_with_jaro_on_a_raw_operand() {
    assert_eq!(
        jaro_similarity_target_matched_preprocessed(&chars("crate"), &chars("trace")),
        jaro_similarity_target_preprocessed("CRATE", &chars("trace"), false, false, no_threshold())
    );
    assert_eq!(similarity(&chars("crate"), &chars("trace")), Some(jaro("crate", "trace")));
}

#[test]
fn jaro_scores_operands_of_any_length() {
    let long = "a".repeat(600_000);
    assert_eq!(
        jaro_similarity_target_preprocessed(&long, &chars(&long), true, false, no_threshold()),
        Ok(Score { num: 1, den: 1 })
    );
    assert_eq!(
        jaro_similarity_target_preprocessed(&long, &chars("a"), true, false, no_threshold()),
        Ok(Score { num: 1 + 600_000 + 600_000, den: 3 * 600_000 })
    );
    assert_eq!(
        jaro_similarity_target_preprocessed("a", &chars(&long), true, false, no_threshold()),
        Ok(Score { num: 600_000 + 1 + 600_000, den: 3 * 600_000 })
    );
    assert_eq!(
        jaro_winkler_similarity_target_preprocessed(&long, &chars(&long), true, false, no_threshold()),
        Ok(Score { num: 10, den: 10 })
    );
    assert_eq!(
        jaro_winkler_similarity_target_preprocessed(&long, &chars("a"), true, false, no_threshold()),
        Ok(Score { num: 10 * 1_200_001 + 599_999, den: 10 * 1_800_000 })
    );
}

#[test]
fn jaro_winkler_of_martha_and_marhta() {
    let score =
        jaro_winkler_similarity_target_preprocessed("MARTHA", &chars("MARHTA"), true, false, no_threshold())
            .unwrap();
    assert_eq!(score, Score { num: 6228, den: 6480 });
    assert!((value(score) - 0.961).abs() < 1e-3);
}

#[test]
fn jaro_winkler_is_not_below_jaro() {
    for (s, t) in [("MARTHA", "MARHTA"), ("DWAYNE", "DUANE"), ("DIXON", "DICKSONX"), ("abc", "xbc")] {
        let plain = jaro(s, t);
        let boosted =
            jaro_winkler_similarity_target_preprocessed(s, &chars(t), true, false, no_threshold()).unwrap();
        assert!(value(boosted) >= value(plain));
    }
}

#[test]
fn jaro_winkler_equals_jaro_at_or_below_the_threshold() {
    let high = Threshold { num: 99, den: 100 };
    assert_eq!(
        jaro_winkler_similarity_target_preprocessed("MARTHA", &chars("MARHTA"), true, false, high),
        Ok(Score { num: 612, den: 648 })
    );
    let exact = Threshold { num: 612, den: 648 };
    assert_eq!(boosted_similarity(&chars("MARTHA"), &chars("MARHTA"), &exact), Some(Score { num: 612, den: 648 }));
}

#[test]
fn jaro_winkler_without_common_prefix_has_the_value_of_jaro() {
    let plain = jaro("abc", "xbc");
    let boosted =
        jaro_winkler_similarity_target_preprocessed("abc", &chars("xbc"), true, false, no_threshold()).unwrap();
    assert_eq!(boosted, Score { num: 10 * plain.num, den: 10 * plain.den });
}

#[test]
fn jaro_winkler_refuses_a_threshold_outside_the_unit_range() {
    for threshold in [
        Threshold { num: 11, den: 10 },
        Threshold { num: -1, den: 10 },
        Threshold { num: 0, den: 0 },
    ] {
        assert_eq!(
            jaro_winkler_similarity_target_preprocessed("abc", &chars("abc"), true, false, threshold),
            Err(MatchError::InvalidRange)
        );
    }
    let one = Threshold { num: 1, den: 1 };
    assert!(jaro_winkler_similarity_target_preprocessed("abc", &chars("abc"), true, false, one).is_ok());
}

#[test]
fn common_prefix_counts_at_most_four() {
    assert_eq!(common_prefix_weight(&chars("abcdefg"), &chars("abcdefx")), 4);
    assert_eq!(common_prefix_weight(&chars("abx"), &chars("abc")), 2);
    assert_eq!(common_prefix_weight(&chars("ab"), &chars("abc")), 2);
    assert_eq!(common_prefix_weight(&chars("xbc"), &chars("abc")), 0);
}

#[test]
fn same_chars_compares_whole_sequences() {
    assert!(same_chars(&chars("abc"), &chars("abc")));
    assert!(!same_chars(&chars("abc"), &chars("abd")));
    assert!(!same_chars(&chars("abc"), &chars("ab")));
}

#[test]
fn scores_compare_as_rationals() {
    let half = Score { num: 1, den: 2 };
    let two_quarters = Score { num: 2, den: 4 };
    let third = Score { num: 1, den: 3 };
    assert!(third.less_than(&half));
    assert!(!half.less_than(&third));
    assert!(!half.less_than(&two_quarters));
    assert!(!two_quarters.less_than(&half));
    assert!(third.better_than(&half, true));
    assert!(half.better_than(&third, false));
    let big = Score { num: u128::MAX, den: u128::MAX };
    assert!(!big.less_than(&big));
    let nearly = Score { num: u128::MAX - 1, den: u128::MAX };
    assert!(nearly.less_than(&big));
    assert!(!big.less_than(&nearly));
    assert!(nearly.less_than(&Score { num: 1, den: 1 }));
    assert!(Score { num: u128::MAX - 2, den: u128::MAX - 1 }.less_than(&nearly));
    assert!(!nearly.less_than(&Score { num: u128::MAX - 2, den: u128::MAX - 1 }));
    assert!(Score { num: 1, den: u128::MAX }.less_than(&Score { num: 1, den: u128::MAX - 1 }));
    assert!(Score { num: 7, den: 9 }.less_than(&Score { num: 11, den: 14 }));
    assert!(!Score { num: 11, den: 14 }.less_than(&Score { num: 7, den: 9 }));
    assert!(!Score { num: 0, den: 5 }.less_than(&Score { num: 0, den: 7 }));
    assert!(Score { num: 0, den: 5 }.less_than(&Score { num: 1, den: u128::MAX }));
    assert!(Threshold { num: 1, den: 3 }.is_exceeded_by(&half));
    assert!(!Threshold { num: 1, den: 2 }.is_exceeded_by(&half));
}

#[test]
fn jaro_is_symmetric_on_many_pairs() {
    let words = ["", "a", "ab", "ba", "abc", "cab", "abab", "baba", "aabb", "abcabc", "cbacba", "MARTHA", "MARHTA"];
    for s in words {
        for t in words {
            assert_eq!(jaro(s, t), jaro(t, s));
        }
    }
}

#[test]
fn jaro_of_crate_and_trace() {
    assert_eq!(jaro("CRATE", "TRACE"), Score { num: 3 * 5 * 3 + 3 * 5 * 3 + 3 * 5 * 5, den: 3 * 5 * 5 * 3 });
    assert_eq!(jaro("DWAYNE", "DUANE"), Score { num: 4 * 5 * 4 + 4 * 6 * 4 + 4 * 6 * 5, den: 3 * 6 * 5 * 4 });
}
