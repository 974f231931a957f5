//! Best-match searches: the closest candidate, the `n` closest, and the
//! closest window of a text.

use rayon::iter::{IntoParallelIterator, IntoParallelRefIterator, ParallelIterator};
use vstd::prelude::*;
use vstd::string::*;
use crate::utils::{char_vec, normalized};
use crate::score::{Score, Threshold, MatchError, lemma_beats_transitive};
use crate::algorithm::{Algorithm, algorithm_named, outcome, lemma_outcome_well_formed};
use crate::ranking::{ranks_before, all_well_formed, sort_scores, lemma_ranks_before_orders};

verus! {

/// The error of the first outcome from `from` on that is one, if any.
pub open spec fn first_error_from(outs: Seq<Result<Score, MatchError>>, from: int) -> Option<
    MatchError,
>
    decreases outs.len() - from,
{
    if from < 0 || from >= outs.len() {
        None
    } else {
        match outs[from] {
            Err(e) => Some(e),
            Ok(_) => first_error_from(outs, from + 1),
        }
    }
}

/// The scores of outcomes that are all scores.
pub open spec fn scores_of(outs: Seq<Result<Score, MatchError>>) -> Seq<Score> {
    Seq::new(outs.len(), |i: int| outs[i]->Ok_0)
}

/// The index of the best score, the first of them where several are equally
/// good: a later score takes the place of an earlier one only where it is
/// strictly better.
pub open spec fn first_best(scores: Seq<Score>, ascending: bool) -> int
    decreases scores.len(),
{
    if scores.len() <= 1 {
        0
    } else {
        let before = first_best(scores.drop_last(), ascending);
        if scores.last().beats(scores[before], ascending) {
            scores.len() - 1
        } else {
            before
        }
    }
}

/// The outcome of scoring each candidate against the normalized target.
pub open spec fn candidate_outcomes(
    options: Seq<&str>,
    target_chars: Seq<char>,
    algorithm: Algorithm,
    case_sensitive: bool,
    remove_whitespace: bool,
    threshold: Threshold,
) -> Seq<Result<Score, MatchError>> {
    Seq::new(
        options.len(),
        |i: int|
            outcome(
                algorithm,
                normalized(options[i]@, case_sensitive, remove_whitespace),
                target_chars,
                threshold,
            ),
    )
}

/// The outcome of scoring each window of `width` characters of the text
/// against the normalized target.
pub open spec fn window_outcomes(
    text: Seq<char>,
    width: int,
    target_chars: Seq<char>,
    algorithm: Algorithm,
    case_sensitive: bool,
    remove_whitespace: bool,
    threshold: Threshold,
) -> Seq<Result<Score, MatchError>> {
    Seq::new(
        (text.len() - width + 1) as nat,
        |i: int|
            outcome(
                algorithm,
                normalized(text.subrange(i, i + width), case_sensitive, remove_whitespace),
                target_chars,
                threshold,
            ),
    )
}

/// Every candidate takes as many bytes as the target.
pub open spec fn byte_lengths_agree(target: &str, options: Seq<&str>) -> bool {
    forall|i: int|
0 <= i < options.len() ==> (#[trigger] options[i]).len() == target.len()
}

/// Why a search among candidates is refused, if it is: an unknown algorithm,
/// for Hamming a candidate whose byte length is not the target's, or the
/// error of the first candidate that the metric refuses.
pub open spec fn scoring_refusal(
    target: &str,
    options: Seq<&str>,
    algorithm: Seq<char>,
    case_sensitive: bool,
    remove_whitespace: bool,
    threshold: Threshold,
) -> Option<MatchError> {
    match algorithm_named(algorithm) {
        None => Some(MatchError::InvalidArgument),
        Some(found) => if found == Algorithm::Hamming && !byte_lengths_agree(target, options) {
            Some(MatchError::IncompatibleOperands)
        } else {
            first_error_from(
                candidate_outcomes(
                    options,
                    normalized(target@, case_sensitive, remove_whitespace),
                    found,
                    case_sensitive,
                    remove_whitespace,
                    threshold,
                ),
                0,
            )
        },
    }
}

/// The scores of the candidates, where the search is not refused.
pub open spec fn candidate_scores(
    target: &str,
    options: Seq<&str>,
    algorithm: Seq<char>,
    case_sensitive: bool,
    remove_whitespace: bool,
    threshold: Threshold,
) -> Seq<Score> {
    scores_of(
        candidate_outcomes(
            options,
            normalized(target@, case_sensitive, remove_whitespace),
            algorithm_named(algorithm)->Some_0,
            case_sensitive,
            remove_whitespace,
            threshold,
        ),
    )
}

/// Whether the scores of `algorithm` are better when lower.
pub open spec fn ascending_by_name(algorithm: Seq<char>) -> bool {
    algorithm_named(algorithm)->Some_0.ascending()
}

/// Whether `picks` are the indices of the `n` best scores, best first: each
/// index is in range and picked once, each pick may stand before the later
/// ones, and the last pick may stand before every index that is not picked.
pub open spec fn top_ranked(picks: Seq<usize>, scores: Seq<Score>, n: int, ascending: bool) -> bool {
    &&& picks.len() == n
    &&& forall|k: int| 0 <= k < n ==> (#[trigger] picks[k]) < scores.len()
    &&& forall|a: int, b: int|
        0 <= a < b < n ==> (#[trigger] picks[a]) != (#[trigger] picks[b]) && ranks_before(
            (picks[a], scores[picks[a] as int]),
            (picks[b], scores[picks[b] as int]),
            ascending,
        )
    &&& forall|j: usize|
        0 <= j < scores.len() && !picks.contains(j) ==> ranks_before(
            (picks[n - 1], scores[picks[n - 1] as int]),
            (j, #[trigger] scores[j as int]),
            ascending,
        )
}

/// Scores every candidate with rayon's `par_iter`, `map` and `collect`. The
/// contract claims that the collected vector holds, at each candidate's
/// index, what `Algorithm::score` gives for that candidate.
#[verifier::external_body]
fn score_all(
    options: &Vec<&str>,
    target_chars: &Vec<char>,
    algorithm: Algorithm,
    case_sensitive: bool,
    remove_whitespace: bool,
    threshold: Threshold,
) -> (outs: Vec<Result<Score, MatchError>>)
    ensures
        outs@ == candidate_outcomes(
            options@,
            target_chars@,
            algorithm,
            case_sensitive,
            remove_whitespace,
            threshold,
        ),
{
    options.par_iter().map(
        |option| algorithm.score(option, target_chars, case_sensitive, remove_whitespace, threshold),
    ).collect()
}

/// Scores the window of `width` characters that starts at character `start`.
pub fn score_window(
    text: &str,
    start: usize,
    width: usize,
    target_chars: &Vec<char>,
    algorithm: Algorithm,
    case_sensitive: bool,
    remove_whitespace: bool,
    threshold: Threshold,
) -> (r: Result<Score, MatchError>)
    requires
        start + width <= text@.len(),
        start + width <= usize::MAX,
    ensures
        r == outcome(
            algorithm,
            normalized(
                text@.subrange(start as int, start + width),
                case_sensitive,
                remove_whitespace,
            ),
            target_chars@,
            threshold,
        ),
        r is Ok ==> r->Ok_0.wf(),
{
    let window = text.substring_char(start, start + width);
    algorithm.score(window, target_chars, case_sensitive, remove_whitespace, threshold)
}

/// Scores every window with rayon's `into_par_iter`, `map` and `collect`.
/// The contract claims that the collected vector holds, at each of the
/// `count` starts, what `score_window` gives for the window that starts
/// there.
#[verifier::external_body]
fn score_windows(
    text: &str,
    width: usize,
    count: usize,
    target_chars: &Vec<char>,
    algorithm: Algorithm,
    flags: (bool, bool),
    threshold: Threshold,
) -> (outs: Vec<Result<Score, MatchError>>)
    requires
        count + width == text@.len() + 1,
    ensures
        outs@ == window_outcomes(
            text@,
            width as int,
            target_chars@,
            algorithm,
            flags.0,
            flags.1,
            threshold,
        ),
{
    (0..count).into_par_iter().map(
        |start| score_window(text, start, width, target_chars, algorithm, flags.0, flags.1, threshold),
    ).collect()
}

/// The scores of outcomes that are all scores, or the error of the first
/// that is one.
pub fn collect_scores(outs: &Vec<Result<Score, MatchError>>) -> (r: Result<Vec<Score>, MatchError>)
    ensures
        match first_error_from(outs@, 0) {
            Some(e) => r == Err::<Vec<Score>, MatchError>(e),
            None => r is Ok && r->Ok_0@ == scores_of(outs@),
        },
{
    let mut scores: Vec<Score> = Vec::with_capacity(outs.len());
    let mut i: usize = 0;
    while i < outs.len()
        invariant
            i <= outs.len(),
            scores.len() == i,
            first_error_from(outs@, 0) == first_error_from(outs@, i as int),
            forall|k: int| 0 <= k < i ==> scores[k] == outs[k]->Ok_0,
        decreases outs.len() - i,
    {
        match outs[i] {
            Err(e) => {
                return Err(e);
            },
            Ok(score) => {
                scores.push(score);
            },
        }
        i = i + 1;
    }
    proof {
        assert(scores@ =~= scores_of(outs@));
    }
    Ok(scores)
}

/// The index of the best score, the first of them where several are equally
/// good.
pub fn best_index(scores: &Vec<Score>, ascending: bool) -> (best: usize)
    requires
        scores.len() > 0,
    ensures
        best == first_best(scores@, ascending),
        best < scores.len(),
{
    let mut best: usize = 0;
    let mut i: usize = 1;
    proof {
        assert(scores@.take(1).len() == 1);
    }
    while i < scores.len()
        invariant
            1 <= i <= scores.len(),
            best < i,
            best == first_best(scores@.take(i as int), ascending),
        decreases scores.len() - i,
    {
        proof {
            assert(scores@.take(i + 1).drop_last() =~= scores@.take(i as int));
            assert(scores@.take(i + 1).last() == scores[i as int]);
            assert(scores@.take(i + 1)[best as int] == scores[best as int]);
        }
        if scores[i].better_than(&scores[best], ascending) {
            best = i;
        }
        i = i + 1;
    }
    proof {
        assert(scores@.take(scores.len() as int) =~= scores@);
    }
    best
}

/// The indices of the `n` best scores, best first.
pub fn n_best(scores: &Vec<Score>, n: usize, ascending: bool) -> (picks: Vec<usize>)
    requires
        1 <= n <= scores.len(),
        forall|i: int| 0 <= i < scores.len() ==> (#[trigger] scores[i]).wf(),
    ensures
        top_ranked(picks@, scores@, n as int, ascending),
{
    let mut entries: Vec<(usize, Score)> = Vec::with_capacity(scores.len());
    let mut i: usize = 0;
    while i < scores.len()
        invariant
            i <= scores.len(),
            entries.len() == i,
            forall|k: int| 0 <= k < i ==> #[trigger] entries[k] == (k as usize, scores[k]),
        decreases scores.len() - i,
    {
        entries.push((i, scores[i]));
        i = i + 1;
    }
    let ghost unsorted = entries@;
    assert(all_well_formed(entries@));
    sort_scores(&mut entries, ascending);
    proof {
        unsorted.to_multiset_ensures();
        entries@.to_multiset_ensures();
        assert(unsorted.no_duplicates());
        unsorted.lemma_multiset_has_no_duplicates();
        entries@.lemma_multiset_has_no_duplicates_conv();
        assert forall|k: int| 0 <= k < entries.len() implies (#[trigger] entries[k]).0
            < scores.len() && entries[k].1 == scores[entries[k].0 as int] by {
            assert(entries@.contains(entries[k]));
            assert(entries@.to_multiset().count(entries[k]) > 0);
            assert(unsorted.to_multiset().count(entries[k]) > 0);
            assert(unsorted.contains(entries[k]));
        }
    }
    let mut picks: Vec<usize> = Vec::with_capacity(n);
    let mut k: usize = 0;
    while k < n
        invariant
            k <= n,
            n <= entries.len(),
            picks.len() == k,
            forall|c: int| 0 <= c < k ==> #[trigger] picks[c] == entries[c].0,
        decreases n - k,
    {
        picks.push(entries[k].0);
        k = k + 1;
    }
    proof {
        assert forall|j: usize| 0 <= j < scores.len() && !picks@.contains(j) implies ranks_before(
            (picks[n - 1], scores[picks[n - 1] as int]),
            (j, #[trigger] scores[j as int]),
            ascending,
        ) by {
            assert(unsorted[j as int] == (j, scores[j as int]));
            assert(unsorted.contains((j, scores[j as int])));
            assert(unsorted.to_multiset().count((j, scores[j as int])) > 0);
            assert(entries@.to_multiset().count((j, scores[j as int])) > 0);
            assert(entries@.contains((j, scores[j as int])));
            let p = choose|p: int| 0 <= p < entries.len() && entries[p] == (j, scores[j as int]);
            if p < n {
                assert(picks[p] == j);
                assert(picks@.contains(j));
            }
            assert(entries[n - 1] == (picks[n - 1], scores[picks[n - 1] as int]));
        }
        assert forall|a: int, b: int| 0 <= a < b < n implies picks[a] != picks[b] && ranks_before(
            (picks[a], scores[picks[a] as int]),
            (picks[b], scores[picks[b] as int]),
            ascending,
        ) by {
            assert(entries[a] != entries[b]);
            assert(entries[a] == (picks[a], scores[picks[a] as int]));
            assert(entries[b] == (picks[b], scores[picks[b] as int]));
        }
    }
    picks
}

/// Where no outcome is an error, each is a score.
pub proof fn lemma_no_error(outs: Seq<Result<Score, MatchError>>, from: int)
    requires
        0 <= from,
        first_error_from(outs, from) is None,
    ensures
        forall|k: int| from <= k < outs.len() ==> (#[trigger] outs[k]) is Ok,
    decreases outs.len() - from,
{
    if from < outs.len() {
        lemma_no_error(outs, from + 1);
    }
}

/// Decides whether every candidate takes as many bytes as the target.
fn same_byte_lengths(target: &str, options: &Vec<&str>) -> (r: bool)
    ensures
        r == byte_lengths_agree(target, options@),
{
    let mut i: usize = 0;
    while i < options.len()
        invariant
            i <= options.len(),
            forall|k: int| 0 <= k < i ==> (#[trigger] options[k]).len() == target.len(),
        decreases options.len() - i,
    {
        let option: &str = options[i];
        if option.len() != target.len() {
            return false;
        }
        i = i + 1;
    }
    true
}

/// Resolves the algorithm, checks the candidates and scores them all.
fn score_candidates(
    target: &str,
    options: &Vec<&str>,
    algorithm: &str,
    case_sensitive: bool,
    remove_whitespace: bool,
    threshold: Threshold,
) -> (r: Result<(Vec<Score>, bool), MatchError>)
    ensures
        match scoring_refusal(
            target,
            options@,
            algorithm@,
            case_sensitive,
            remove_whitespace,
            threshold,
        ) {
            Some(e) => r == Err::<(Vec<Score>, bool), MatchError>(e),
            None => r is Ok && r->Ok_0.0@ == candidate_scores(
                target,
                options@,
                algorithm@,
                case_sensitive,
                remove_whitespace,
                threshold,
            ) && r->Ok_0.1 == ascending_by_name(algorithm@) && r->Ok_0.0.len() == options.len()
                && forall|i: int| 0 <= i < options.len() ==> (#[trigger] r->Ok_0.0[i]).wf(),
        },
{
    let found = match Algorithm::from_name(algorithm) {
        None => {
            return Err(MatchError::InvalidArgument);
        },
        Some(found) => found,
    };
    if found == Algorithm::Hamming && !same_byte_lengths(target, options) {
        return Err(MatchError::IncompatibleOperands);
    }
    let processed_target = char_vec(target, case_sensitive, remove_whitespace);
    let outs = score_all(
        options,
        &processed_target,
        found,
        case_sensitive,
        remove_whitespace,
        threshold,
    );
    match collect_scores(&outs) {
        Err(e) => Err(e),
        Ok(scores) => {
            proof {
                lemma_no_error(outs@, 0);
                assert forall|i: int| 0 <= i < options.len() implies (#[trigger] scores[i]).wf() by {
                    lemma_outcome_well_formed(
                        found,
                        normalized(options[i]@, case_sensitive, remove_whitespace),
                        processed_target@,
                        threshold,
                    );
                    assert(outs[i] is Ok);
                }
            }
            Ok((scores, found.is_ascending()))
        },
    }
}

/// The candidate closest to the target: the one with the best score, the
/// first of them where several are equally good.
pub fn closest(
    target: &str,
    options: Vec<&str>,
    algorithm: &str,
    case_sensitive: bool,
    remove_whitespace: bool,
    threshold: Threshold,
) -> (r: Result<String, MatchError>)
    ensures
        options.len() == 0 ==> r == Err::<String, MatchError>(MatchError::InvalidArgument),
        options.len() > 0 ==> match scoring_refusal(
            target,
            options@,
            algorithm@,
            case_sensitive,
            remove_whitespace,
            threshold,
        ) {
            Some(e) => r == Err::<String, MatchError>(e),
            None => r is Ok && r->Ok_0@ == options[first_best(
                candidate_scores(
                    target,
                    options@,
                    algorithm@,
                    case_sensitive,
                    remove_whitespace,
                    threshold,
                ),
                ascending_by_name(algorithm@),
            )]@,
        },
{
    match closest_with_score(
        target,
        options,
        algorithm,
        case_sensitive,
        remove_whitespace,
        threshold,
    ) {
        Err(e) => Err(e),
        Ok(found) => Ok(found.0),
    }
}

/// The candidate closest to the target, with its score.
pub fn closest_with_score(
    target: &str,
    options: Vec<&str>,
    algorithm: &str,
    case_sensitive: bool,
    remove_whitespace: bool,
    threshold: Threshold,
) -> (r: Result<(String, Score), MatchError>)
    ensures
        options.len() == 0 ==> r == Err::<(String, Score), MatchError>(MatchError::InvalidArgument),
        options.len() > 0 ==> match scoring_refusal(
            target,
            options@,
            algorithm@,
            case_sensitive,
            remove_whitespace,
            threshold,
        ) {
            Some(e) => r == Err::<(String, Score), MatchError>(e),
            None => {
                let scores = candidate_scores(
                    target,
                    options@,
                    algorithm@,
                    case_sensitive,
                    remove_whitespace,
                    threshold,
                );
                let best = first_best(scores, ascending_by_name(algorithm@));
                r is Ok && r->Ok_0.0@ == options[best]@ && r->Ok_0.1 == scores[best]
            },
        },
{
    if options.len() == 0 {
        return Err(MatchError::InvalidArgument);
    }
    let (scores, ascending) = match score_candidates(
        target,
        &options,
        algorithm,
        case_sensitive,
        remove_whitespace,
        threshold,
    ) {
        Err(e) => {
            return Err(e);
        },
        Ok(scored) => scored,
    };
    let best = best_index(&scores, ascending);
    let word: &str = options[best];
    Ok((word.to_owned(), scores[best]))
}

/// Whether `found` holds the `n` best candidates with their scores, best
/// first.
pub open spec fn holds_top(
    found: Seq<(String, Score)>,
    options: Seq<&str>,
    scores: Seq<Score>,
    n: int,
    ascending: bool,
) -> bool {
    exists|picks: Seq<usize>|
        top_ranked(picks, scores, n, ascending) && found.len() == n && forall|k: int|
            0 <= k < n ==> (#[trigger] found[k]).0@ == options[picks[k] as int]@ && found[k].1
                == scores[picks[k] as int]
}

/// Whether `found` holds the `n` best candidates, best first.
pub open spec fn names_top(
    found: Seq<String>,
    options: Seq<&str>,
    scores: Seq<Score>,
    n: int,
    ascending: bool,
) -> bool {
    exists|picks: Seq<usize>|
        top_ranked(picks, scores, n, ascending) && found.len() == n && forall|k: int|
            0 <= k < n ==> (#[trigger] found[k])@ == options[picks[k] as int]@
}

/// The `n` candidates closest to the target, best first.
pub fn n_closest(
    target: &str,
    options: Vec<&str>,
    n: usize,
    algorithm: &str,
    case_sensitive: bool,
    remove_whitespace: bool,
    threshold: Threshold,
) -> (r: Result<Vec<String>, MatchError>)
    ensures
        options.len() == 0 || n < 1 || n > options.len() ==> r == Err::<Vec<String>, MatchError>(
            MatchError::InvalidArgument,
        ),
        1 <= n <= options.len() ==> match scoring_refusal(
            target,
            options@,
            algorithm@,
            case_sensitive,
            remove_whitespace,
            threshold,
        ) {
            Some(e) => r == Err::<Vec<String>, MatchError>(e),
            None => r is Ok && names_top(
                r->Ok_0@,
                options@,
                candidate_scores(
                    target,
                    options@,
                    algorithm@,
                    case_sensitive,
                    remove_whitespace,
                    threshold,
                ),
                n as int,
                ascending_by_name(algorithm@),
            ),
        },
{
    if options.len() == 0 || n < 1 || n > options.len() {
        return Err(MatchError::InvalidArgument);
    }
    let (scores, ascending) = match score_candidates(
        target,
        &options,
        algorithm,
        case_sensitive,
        remove_whitespace,
        threshold,
    ) {
        Err(e) => {
            return Err(e);
        },
        Ok(scored) => scored,
    };
    let picks = n_best(&scores, n, ascending);
    let mut best: Vec<String> = Vec::with_capacity(n);
    let mut k: usize = 0;
    while k < n
        invariant
            k <= n,
            n == picks.len(),
            best.len() == k,
            top_ranked(picks@, scores@, n as int, ascending),
            scores.len() == options.len(),
            forall|c: int| 0 <= c < k ==> (#[trigger] best[c])@ == options[picks[c] as int]@,
        decreases n - k,
    {
        let word: &str = options[picks[k]];
        best.push(word.to_owned());
        k = k + 1;
    }
    Ok(best)
}

/// The `n` candidates closest to the target, best first, each with its
/// score.
pub fn n_closest_with_score(
    target: &str,
    options: Vec<&str>,
    n: usize,
    algorithm: &str,
    case_sensitive: bool,
    remove_whitespace: bool,
    threshold: Threshold,
) -> (r: Result<Vec<(String, Score)>, MatchError>)
    ensures
        options.len() == 0 || n < 1 || n > options.len() ==> r == Err::<
            Vec<(String, Score)>,
            MatchError,
        >(MatchError::InvalidArgument),
        1 <= n <= options.len() ==> match scoring_refusal(
            target,
            options@,
            algorithm@,
            case_sensitive,
            remove_whitespace,
            threshold,
        ) {
            Some(e) => r == Err::<Vec<(String, Score)>, MatchError>(e),
            None => r is Ok && holds_top(
                r->Ok_0@,
                options@,
                candidate_scores(
                    target,
                    options@,
                    algorithm@,
                    case_sensitive,
                    remove_whitespace,
                    threshold,
                ),
                n as int,
                ascending_by_name(algorithm@),
            ),
        },
{
    if options.len() == 0 || n < 1 || n > options.len() {
        return Err(MatchError::InvalidArgument);
    }
    let (scores, ascending) = match score_candidates(
        target,
        &options,
        algorithm,
        case_sensitive,
        remove_whitespace,
        threshold,
    ) {
        Err(e) => {
            return Err(e);
        },
        Ok(scored) => scored,
    };
    let picks = n_best(&scores, n, ascending);
    let mut best: Vec<(String, Score)> = Vec::with_capacity(n);
    let mut k: usize = 0;
    while k < n
        invariant
            k <= n,
            n == picks.len(),
            best.len() == k,
            top_ranked(picks@, scores@, n as int, ascending),
            scores.len() == options.len(),
            forall|c: int|
                0 <= c < k ==> (#[trigger] best[c]).0@ == options[picks[c] as int]@ && best[c].1
                    == scores[picks[c] as int],
        decreases n - k,
    {
        let word: &str = options[picks[k]];
        best.push((word.to_owned(), scores[picks[k]]));
        k = k + 1;
    }
    Ok(best)
}

/// Where in the text the window closest to the target lies: the character
/// index at which the best window of as many characters as the target
/// starts, the first of them where several are equally good, and the index
/// at which it ends. An empty text gives `(0, 0)`; a target longer than the
/// text is refused, and so is a text whose windows cannot be counted.
pub fn closest_index_pair(
    target: &str,
    text: &str,
    algorithm: &str,
    case_sensitive: bool,
    remove_whitespace: bool,
    threshold: Threshold,
) -> (r: Result<(usize, usize), MatchError>)
    ensures
        text@.len() == 0 ==> r == Ok::<(usize, usize), MatchError>((0usize, 0usize)),
        text@.len() > 0 && (algorithm_named(algorithm@) is None || target@.len() > text@.len())
            ==> r == Err::<(usize, usize), MatchError>(MatchError::InvalidArgument),
        text@.len() >= usize::MAX && algorithm_named(algorithm@) is Some && target@.len()
            <= text@.len() ==> r == Err::<(usize, usize), MatchError>(MatchError::OperandTooLong),
        0 < text@.len() < usize::MAX && algorithm_named(algorithm@) is Some && target@.len()
            <= text@.len() ==> {
            let outs = window_outcomes(
                text@,
                target@.len() as int,
                normalized(target@, case_sensitive, remove_whitespace),
                algorithm_named(algorithm@)->Some_0,
                case_sensitive,
                remove_whitespace,
                threshold,
            );
            match first_error_from(outs, 0) {
                Some(e) => r == Err::<(usize, usize), MatchError>(e),
                None => {
                    let start = first_best(scores_of(outs), ascending_by_name(algorithm@));
                    r is Ok && r->Ok_0.0 == start && r->Ok_0.1 == start + target@.len()
                },
            }
        },
{
    let text_len = text.unicode_len();
    if text_len == 0 {
        return Ok((0, 0));
    }
    let found = match Algorithm::from_name(algorithm) {
        None => {
            return Err(MatchError::InvalidArgument);
        },
        Some(found) => found,
    };
    let width = target.unicode_len();
    if width > text_len {
        return Err(MatchError::InvalidArgument);
    }
    if text_len == usize::MAX {
        return Err(MatchError::OperandTooLong);
    }
    let processed_target = char_vec(target, case_sensitive, remove_whitespace);
    let outs = score_windows(
        text,
        width,
        text_len - width + 1,
        &processed_target,
        found,
        (case_sensitive, remove_whitespace),
        threshold,
    );
    match collect_scores(&outs) {
        Err(e) => Err(e),
        Ok(scores) => {
            let start = best_index(&scores, found.is_ascending());
            Ok((start, start + width))
        },
    }
}

/// The pick of `first_best` is a best score and the first of them: no score
/// beats it, and it beats every score before it.
pub proof fn lemma_first_best_is_best(scores: Seq<Score>, ascending: bool)
    requires
        scores.len() > 0,
        forall|i: int| 0 <= i < scores.len() ==> (#[trigger] scores[i]).wf(),
    ensures
        0 <= first_best(scores, ascending) < scores.len(),
        forall|j: int|
            0 <= j < scores.len() ==> !(#[trigger] scores[j]).beats(
                scores[first_best(scores, ascending)],
                ascending,
            ),
        forall|j: int|
            0 <= j < first_best(scores, ascending) ==> scores[first_best(scores, ascending)].beats(
                #[trigger] scores[j],
                ascending,
            ),
    decreases scores.len(),
{
    if scores.len() > 1 {
        let shorter = scores.drop_last();
        lemma_first_best_is_best(shorter, ascending);
        let before = first_best(shorter, ascending);
        assert(shorter[before] == scores[before]);
        let last = scores.last();
        assert forall|j: int| 0 <= j < scores.len() implies !(#[trigger] scores[j]).beats(
            scores[first_best(scores, ascending)],
            ascending,
        ) by {
            lemma_beats_transitive(last, scores[before], scores[j], ascending);
            if j < scores.len() - 1 {
                assert(shorter[j] == scores[j]);
            }
        }
        assert forall|j: int| 0 <= j < first_best(scores, ascending) implies scores[first_best(
            scores,
            ascending,
        )].beats(#[trigger] scores[j], ascending) by {
            lemma_beats_transitive(last, scores[before], scores[j], ascending);
            assert(shorter[j] == scores[j]);
        }
    }
}

/// Where two sequences of picks are both the `n` best and agree below `k`,
/// the pick of the first at `k` may stand before the pick of the second.
proof fn lemma_pick_precedes(
    p: Seq<usize>,
    q: Seq<usize>,
    scores: Seq<Score>,
    n: int,
    ascending: bool,
    k: int,
)
    requires
        top_ranked(p, scores, n, ascending),
        top_ranked(q, scores, n, ascending),
        forall|i: int| 0 <= i < scores.len() ==> (#[trigger] scores[i]).wf(),
        0 <= k < n,
        forall|c: int| 0 <= c < k ==> p[c] == q[c],
        p[k] != q[k],
    ensures
        ranks_before((p[k], scores[p[k] as int]), (q[k], scores[q[k] as int]), ascending),
{
    let y = q[k];
    if p.contains(y) {
        let l = choose|l: int| 0 <= l < p.len() && p[l] == y;
        if l < k {
            assert(q[l] == p[l]);
            assert(q[l] != q[k]);
        }
        assert(k < l);
    } else {
        if k < n - 1 {
            lemma_ranks_before_orders(
                (p[k], scores[p[k] as int]),
                (p[n - 1], scores[p[n - 1] as int]),
                (y, scores[y as int]),
                ascending,
            );
        }
    }
}

/// The `n` best picks are determined by the scores: two sequences of picks
/// that are both the `n` best, best first, are the same sequence, however
/// each was sorted.
pub proof fn lemma_top_ranked_unique(
    p: Seq<usize>,
    q: Seq<usize>,
    scores: Seq<Score>,
    n: int,
    ascending: bool,
    k: int,
)
    requires
        top_ranked(p, scores, n, ascending),
        top_ranked(q, scores, n, ascending),
        forall|i: int| 0 <= i < scores.len() ==> (#[trigger] scores[i]).wf(),
        0 <= k <= n,
    ensures
        forall|c: int| 0 <= c < k ==> p[c] == q[c],
        k == n ==> p == q,
    decreases k,
{
    if k > 0 {
        lemma_top_ranked_unique(p, q, scores, n, ascending, k - 1);
        if p[k - 1] != q[k - 1] {
            lemma_pick_precedes(p, q, scores, n, ascending, k - 1);
            lemma_pick_precedes(q, p, scores, n, ascending, k - 1);
            lemma_ranks_before_orders(
                (p[k - 1], scores[p[k - 1] as int]),
                (q[k - 1], scores[q[k - 1] as int]),
                (p[k - 1], scores[p[k - 1] as int]),
                ascending,
            );
        }
    }
    if k == n {
        assert(p =~= q);
    }
}

/// Two answers that both name the `n` best candidates, best first, name the
/// same candidates in the same order.
pub proof fn lemma_top_names_unique(
    first: Seq<String>,
    second: Seq<String>,
    options: Seq<&str>,
    scores: Seq<Score>,
    n: int,
    ascending: bool,
)
    requires
        names_top(first, options, scores, n, ascending),
        names_top(second, options, scores, n, ascending),
        forall|i: int| 0 <= i < scores.len() ==> (#[trigger] scores[i]).wf(),
        0 <= n,
    ensures
        first.len() == second.len(),
        forall|k: int| 0 <= k < n ==> (#[trigger] first[k])@ == second[k]@,
{
    let p = choose|picks: Seq<usize>|
        top_ranked(picks, scores, n, ascending) && first.len() == n && forall|k: int|
            0 <= k < n ==> (#[trigger] first[k])@ == options[picks[k] as int]@;
    let q = choose|picks: Seq<usize>|
        top_ranked(picks, scores, n, ascending) && second.len() == n && forall|k: int|
            0 <= k < n ==> (#[trigger] second[k])@ == options[picks[k] as int]@;
    lemma_top_ranked_unique(p, q, scores, n, ascending, n);
}

/// Two answers that both hold the `n` best candidates with their scores,
/// best first, name the same candidates with the same scores in the same
/// order: the answer does not depend on how the scores were sorted.
pub proof fn lemma_top_answer_unique(
    first: Seq<(String, Score)>,
    second: Seq<(String, Score)>,
    options: Seq<&str>,
    scores: Seq<Score>,
    n: int,
    ascending: bool,
)
    requires
        holds_top(first, options, scores, n, ascending),
        holds_top(second, options, scores, n, ascending),
        forall|i: int| 0 <= i < scores.len() ==> (#[trigger] scores[i]).wf(),
        0 <= n,
    ensures
        first.len() == second.len(),
        forall|k: int|
            0 <= k < n ==> (#[trigger] first[k]).0@ == second[k].0@ && first[k].1 == second[k].1,
{
    let p = choose|picks: Seq<usize>|
        top_ranked(picks, scores, n, ascending) && first.len() == n && forall|k: int|
            0 <= k < n ==> (#[trigger] first[k]).0@ == options[picks[k] as int]@ && first[k].1
                == scores[picks[k] as int];
    let q = choose|picks: Seq<usize>|
        top_ranked(picks, scores, n, ascending) && second.len() == n && forall|k: int|
            0 <= k < n ==> (#[trigger] second[k]).0@ == options[picks[k] as int]@ && second[k].1
                == scores[picks[k] as int];
    lemma_top_ranked_unique(p, q, scores, n, ascending, n);
}

} // verus!
