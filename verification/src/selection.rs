//! Choosing the next guess.
//!
//! Each candidate guess is scored by the mean size of the buckets into which it
//! parts the pool of possible answers: the fewer words share a grade, the more the
//! guess tells. The best guess is the candidate with the smallest mean, and among
//! several of them the first. Means are compared as exact fractions.

use crate::error::SolverError;
use crate::grade::WORD_LENGTH;
use crate::group::{mean_below, AverageLength};
use crate::partition::{
    lemma_buckets_hold_words, lemma_partition_is_exhaustive_and_disjoint,
    lemma_partition_keeps_count, partition, total_words,
};
use crate::word::{AllWords, Word};
use crate::wordle::graded_pool;
use rayon::iter::{IntoParallelRefIterator, ParallelIterator};
use vstd::prelude::*;

verus! {

/// The threshold of the usual policy.
pub const DEFAULT_THRESHOLD: usize = 50;

/// Which words are tried as guesses.
///
/// While fewer than `threshold` answers are possible, only they are tried. From
/// `threshold` possible answers on, every word of the dictionary is tried against
/// them.
#[derive(Clone, Copy, Debug, PartialEq, Eq, Structural)]
pub struct GuessPolicy {
    pub threshold: usize,
}

/// The mean bucket size that a guess gives on a pool of possible answers: the number
/// of words in all buckets over the number of buckets.
pub open spec fn mean_bucket_size(target: Seq<Seq<char>>, guess: Seq<char>) -> (nat, nat) {
    let buckets = partition(graded_pool(target, guess));
    (total_words(buckets), buckets.len())
}

/// Whether the candidate at place `i` is the best guess: no candidate gives a smaller
/// mean bucket size, and every candidate before it gives a larger one.
pub open spec fn is_best_guess(candidates: Seq<Seq<char>>, target: Seq<Seq<char>>, i: int) -> bool {
    &&& 0 <= i < candidates.len()
    &&& forall|j: int|
        0 <= j < candidates.len() ==> !mean_below(
            mean_bucket_size(target, #[trigger] candidates[j]),
            mean_bucket_size(target, candidates[i]),
        )
    &&& forall|j: int|
        0 <= j < i ==> mean_below(
            mean_bucket_size(target, candidates[i]),
            mean_bucket_size(target, #[trigger] candidates[j]),
        )
}

/// What choosing among `candidates` against `target` gives: the best guess, or the
/// reason why there is none. An empty pool counts before a word of the wrong length.
pub open spec fn best_guess_is(
    candidates: Seq<Seq<char>>,
    target: Seq<Seq<char>>,
    r: Result<Word, SolverError>,
) -> bool {
    if candidates.len() == 0 || target.len() == 0 {
        r == Err::<Word, SolverError>(SolverError::EmptyPool)
    } else if !AllWords::all_gradable(candidates) || !AllWords::all_gradable(target) {
        r == Err::<Word, SolverError>(SolverError::LengthMismatch)
    } else {
        r is Ok && exists|i: int|
            is_best_guess(candidates, target, i) && r->Ok_0@ == #[trigger] candidates[i]
    }
}

/// The buckets of a pool hold the words of the pool, so the mean bucket size is the
/// size of the pool over the number of buckets, and a pool with words has a bucket.
pub proof fn lemma_mean_bucket_size(target: Seq<Seq<char>>, guess: Seq<char>)
    ensures
        mean_bucket_size(target, guess).0 == target.len(),
        mean_bucket_size(target, guess).1 <= target.len(),
        target.len() > 0 ==> mean_bucket_size(target, guess).1 > 0,
{
    let graded = graded_pool(target, guess);
    let buckets = partition(graded);
    lemma_partition_keeps_count(graded);
    lemma_partition_is_exhaustive_and_disjoint(graded);
    lemma_buckets_hold_words(buckets);
    if target.len() > 0 {
        assert(graded[0].1 == graded[0].1);
    }
}

/// There is one best guess at most: any two places that hold the best guess are the
/// same place, so choosing twice among the same candidates against the same pool
/// gives the same word.
pub proof fn lemma_best_guess_is_unique(
    candidates: Seq<Seq<char>>,
    target: Seq<Seq<char>>,
    i: int,
    j: int,
)
    requires
        is_best_guess(candidates, target, i),
        is_best_guess(candidates, target, j),
    ensures
        i == j,
{
    if i < j {
        assert(mean_below(
            mean_bucket_size(target, candidates[j]),
            mean_bucket_size(target, candidates[i]),
        ));
    } else if j < i {
        assert(mean_below(
            mean_bucket_size(target, candidates[i]),
            mean_bucket_size(target, candidates[j]),
        ));
    }
}

/// Two results of choosing among the same candidates against the same pool are the
/// same: both fail for the same reason, or both hold the same word.
pub proof fn lemma_best_guess_is_repeatable(
    candidates: Seq<Seq<char>>,
    target: Seq<Seq<char>>,
    first: Result<Word, SolverError>,
    second: Result<Word, SolverError>,
)
    requires
        best_guess_is(candidates, target, first),
        best_guess_is(candidates, target, second),
    ensures
        first is Ok <==> second is Ok,
        first is Ok ==> first->Ok_0@ == second->Ok_0@,
        first is Err ==> first->Err_0 == second->Err_0,
{
    if first is Ok {
        let i = choose|i: int|
            is_best_guess(candidates, target, i) && first->Ok_0@ == #[trigger] candidates[i];
        let j = choose|j: int|
            is_best_guess(candidates, target, j) && second->Ok_0@ == #[trigger] candidates[j];
        lemma_best_guess_is_unique(candidates, target, i, j);
    }
}

/// The best guess is one of the candidates.
pub proof fn lemma_best_guess_is_a_candidate(
    candidates: Seq<Seq<char>>,
    target: Seq<Seq<char>>,
    r: Result<Word, SolverError>,
)
    requires
        best_guess_is(candidates, target, r),
        r is Ok,
    ensures
        candidates.contains(r->Ok_0@),
{
    let i = choose|i: int|
        is_best_guess(candidates, target, i) && r->Ok_0@ == #[trigger] candidates[i];
    assert(candidates[i] == r->Ok_0@);
}

/// Between two means over one positive number of words, the smaller mean is the one
/// over more buckets.
pub proof fn lemma_mean_below_for_one_pool(a: (nat, nat), b: (nat, nat))
    requires
        a.0 == b.0,
        a.0 > 0,
    ensures
        mean_below(a, b) <==> b.1 < a.1,
{
    let total = a.0;
    let left = a.1;
    let right = b.1;
    assert((total * right < total * left) <==> right < left) by (nonlinear_arith)
        requires
            total > 0,
    ;
}

/// While fewer answers are possible than the threshold of the policy, the guess that
/// is chosen is one of them, whatever the dictionary holds.
pub proof fn lemma_small_pool_guess_is_possible_answer(
    policy: GuessPolicy,
    dictionary: Seq<Seq<char>>,
    remaining: Seq<Seq<char>>,
    r: Result<Word, SolverError>,
)
    requires
        remaining.len() < policy.threshold,
        best_guess_is(policy.candidates(dictionary, remaining), remaining, r),
        r is Ok,
    ensures
        remaining.contains(r->Ok_0@),
{
    lemma_best_guess_is_a_candidate(remaining, remaining, r);
}

/// The mean bucket size of each candidate on the pool, by `rayon`'s `par_iter`, `map`
/// and `collect` into a `Vec`.
///
/// Taken on trust: the result holds, for each candidate in order, what
/// `AllWords::partition_mean` gives for it.
#[verifier::external_body]
fn par_partition_means(candidates: &Vec<Word>, target: &AllWords) -> (means: Vec<AverageLength>)
    requires
        target@.len() > 0,
        AllWords::all_gradable(target@),
        forall|i: int|
            0 <= i < candidates@.len() ==> (#[trigger] candidates@[i])@.len() == WORD_LENGTH,
    ensures
        means@.len() == candidates@.len(),
        forall|i: int|
            0 <= i < candidates@.len() ==> (#[trigger] means@[i])@ == mean_bucket_size(
                target@,
                candidates@[i]@,
            ),
{
    candidates.par_iter().map(|guess| target.partition_mean(guess)).collect()
}

impl Default for GuessPolicy {
    fn default() -> (policy: Self)
        ensures
            policy.threshold == DEFAULT_THRESHOLD,
    {
        GuessPolicy { threshold: DEFAULT_THRESHOLD }
    }
}

impl GuessPolicy {
    /// The words that are tried as guesses: the possible answers while they are fewer
    /// than the threshold, the dictionary otherwise.
    pub open spec fn candidates(
        self,
        dictionary: Seq<Seq<char>>,
        remaining: Seq<Seq<char>>,
    ) -> Seq<Seq<char>> {
        if remaining.len() < self.threshold {
            remaining
        } else {
            dictionary
        }
    }

    /// The policy with the given threshold.
    pub fn new(threshold: usize) -> (policy: GuessPolicy)
        ensures
            policy.threshold == threshold,
    {
        GuessPolicy { threshold }
    }

    /// The best guess against the possible answers, among the words that the policy
    /// tries.
    pub fn choose_guess(&self, dictionary: &AllWords, remaining: &AllWords) -> (r: Result<
        Word,
        SolverError,
    >)
        ensures
            best_guess_is(self.candidates(dictionary@, remaining@), remaining@, r),
    {
        if remaining.get_length() < self.threshold {
            AllWords::best_guess(remaining, remaining)
        } else {
            AllWords::best_guess(dictionary, remaining)
        }
    }
}

impl AllWords {
    /// The mean bucket size that a guess gives on this pool.
    pub(crate) fn partition_mean(&self, guess: &Word) -> (mean: AverageLength)
        requires
            self@.len() > 0,
            Self::all_gradable(self@),
            guess@.len() == WORD_LENGTH,
        ensures
            mean@ == mean_bucket_size(self@, guess@),
    {
        let wordles = self.grade_all_gradable(guess);
        let groups = wordles.group_by_grade().unwrap();
        proof {
            lemma_partition_keeps_count(wordles@);
            assert(self@.len() == self.words.len());
        }
        groups.get_average_length()
    }

    /// The candidate that parts the pool of possible answers into the buckets of the
    /// smallest mean size; among several such candidates, the first.
    ///
    /// Neither pool may be empty, and every word of both must have `WORD_LENGTH`
    /// letters.
    pub fn best_guess(guess_candidates: &AllWords, target_pool: &AllWords) -> (r: Result<
        Word,
        SolverError,
    >)
        ensures
            best_guess_is(guess_candidates@, target_pool@, r),
    {
        if guess_candidates.get_length() == 0 || target_pool.get_length() == 0 {
            return Err(SolverError::EmptyPool);
        }
        if !guess_candidates.is_gradable() || !target_pool.is_gradable() {
            return Err(SolverError::LengthMismatch);
        }
        let ghost candidates = guess_candidates@;
        let ghost target = target_pool@;
        assert forall|i: int| 0 <= i < guess_candidates.words@.len() implies (
        #[trigger] guess_candidates.words@[i])@.len() == WORD_LENGTH by {
            assert(candidates[i].len() == WORD_LENGTH);
        }
        let means = par_partition_means(&guess_candidates.words, target_pool);
        proof {
            assert forall|j: int| 0 <= j < means@.len() implies (#[trigger] means@[j])@
                == mean_bucket_size(target, candidates[j]) && means@[j]@.0 == target.len() by {
                lemma_mean_bucket_size(target, candidates[j]);
            }
        }
        let mut best: usize = 0;
        let mut i: usize = 1;
        while i < means.len()
            invariant
                best < i <= means@.len(),
                target.len() > 0,
                forall|j: int| 0 <= j < means@.len() ==> (#[trigger] means@[j])@.0 == target.len(),
                forall|j: int| 0 <= j < i ==> (#[trigger] means@[j])@.1 <= means@[best as int]@.1,
                forall|j: int| 0 <= j < best ==> (#[trigger] means@[j])@.1 < means@[best as int]@.1,
            decreases means@.len() - i,
        {
            proof {
                lemma_mean_below_for_one_pool(means@[i as int]@, means@[best as int]@);
            }
            if means[i].is_below(&means[best]) {
                best = i;
            }
            i = i + 1;
        }
        let word = guess_candidates.words[best].clone();
        proof {
            assert forall|j: int| 0 <= j < candidates.len() implies !mean_below(
                mean_bucket_size(target, #[trigger] candidates[j]),
                mean_bucket_size(target, candidates[best as int]),
            ) by {
                assert(means@[j]@ == mean_bucket_size(target, candidates[j]));
                lemma_mean_below_for_one_pool(means@[j]@, means@[best as int]@);
            }
            assert forall|j: int| 0 <= j < best implies mean_below(
                mean_bucket_size(target, candidates[best as int]),
                mean_bucket_size(target, #[trigger] candidates[j]),
            ) by {
                assert(means@[j]@ == mean_bucket_size(target, candidates[j]));
                lemma_mean_below_for_one_pool(means@[best as int]@, means@[j]@);
            }
            assert(is_best_guess(candidates, target, best as int));
            assert(word@ == candidates[best as int]);
        }
        Ok(word)
    }

    /// The best guess among the words of this pool, against this pool.
    pub fn get_best_guess(&self) -> (r: Result<Word, SolverError>)
        ensures
            best_guess_is(self@, self@, r),
    {
        Self::best_guess(self, self)
    }
}

} // verus!
