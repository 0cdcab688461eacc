//! Graded words, and the grouping of a graded pool.

use crate::error::SolverError;
use crate::grade::{Grade, WORD_LENGTH};
use crate::grading::grade_of;
use crate::group::{buckets_of, AllGroups, Group};
use crate::partition::{grades_seen, lemma_grades_seen_distinct, lemma_partition_push, partition};
use crate::word::{AllWords, Word};
use vstd::prelude::*;

verus! {

/// A word with the grade that a guess got against it.
#[derive(Debug)]
pub struct Wordle {
    word: Word,
    grade: Grade,
}

/// A graded pool: the words of a pool, each with its grade against one guess.
#[derive(Debug)]
pub struct AllWordles {
    wordles: Vec<Wordle>,
}

/// A pool graded against a guess: each word with the grade of the guess against it.
pub open spec fn graded_pool(pool: Seq<Seq<char>>, guess: Seq<char>) -> Seq<(Seq<char>, nat)> {
    Seq::new(pool.len(), |i: int| (pool[i], grade_of(pool[i], guess)))
}

/// The word and the grade of each graded word, in order.
pub open spec fn graded_of(wordles: Seq<Wordle>) -> Seq<(Seq<char>, nat)> {
    Seq::new(wordles.len(), |i: int| wordles[i]@)
}

impl View for Wordle {
    type V = (Seq<char>, nat);

    closed spec fn view(&self) -> (Seq<char>, nat) {
        (self.word@, self.grade@)
    }
}

impl View for AllWordles {
    type V = Seq<(Seq<char>, nat)>;

    closed spec fn view(&self) -> Seq<(Seq<char>, nat)> {
        graded_of(self.wordles@)
    }
}

impl Clone for Wordle {
    fn clone(&self) -> (copy: Self)
        ensures
            copy@ == self@,
    {
        Wordle { word: self.word.clone(), grade: self.grade }
    }
}

impl Clone for AllWordles {
    fn clone(&self) -> (copy: Self)
        ensures
            copy@ == self@,
    {
        let mut wordles: Vec<Wordle> = Vec::new();
        let mut i: usize = 0;
        while i < self.wordles.len()
            invariant
                i <= self.wordles@.len(),
                wordles@.len() == i,
                forall|k: int| 0 <= k < i ==> wordles@[k]@ == self.wordles@[k]@,
            decreases self.wordles@.len() - i,
        {
            wordles.push(self.wordles[i].clone());
            i = i + 1;
        }
        let copy = AllWordles { wordles };
        assert(copy@ =~= self@);
        copy
    }
}

impl Wordle {
    /// The word with the grade of `guess` against it.
    ///
    /// Both words must have `WORD_LENGTH` letters; otherwise the lengths do not match.
    pub fn new(word: &Word, guess: &Word) -> (r: Result<Wordle, SolverError>)
        ensures
            r is Ok <==> word@.len() == WORD_LENGTH && guess@.len() == WORD_LENGTH,
            r is Ok ==> r->Ok_0@ == (word@, grade_of(word@, guess@)),
            r is Err ==> r->Err_0 == SolverError::LengthMismatch,
    {
        match word.get_grade(guess) {
            Ok(grade) => Ok(Wordle { word: word.clone(), grade }),
            Err(e) => Err(e),
        }
    }

    /// The word with the grade of `guess` against it, for words of the right length.
    pub(crate) fn graded(word: &Word, guess: &Word) -> (wordle: Wordle)
        requires
            word@.len() == WORD_LENGTH,
            guess@.len() == WORD_LENGTH,
        ensures
            wordle@ == (word@, grade_of(word@, guess@)),
    {
        Self::new(word, guess).unwrap()
    }
}

impl AllWordles {
    /// A graded pool of one word with the grade 0: nothing has been guessed yet.
    pub fn new(word: Word) -> (pool: AllWordles)
        ensures
            pool@ == seq![(word@, 0nat)],
    {
        let mut wordles: Vec<Wordle> = Vec::new();
        wordles.push(Wordle { word, grade: Grade::new_from_decimal(0) });
        let pool = AllWordles { wordles };
        assert(pool@ =~= seq![(word@, 0nat)]);
        pool
    }

    /// The graded pool of the given graded words, in their order.
    pub fn new_from_vec(wordles: Vec<Wordle>) -> (pool: AllWordles)
        ensures
            pool@ == graded_of(wordles@),
    {
        AllWordles { wordles }
    }

    /// The number of graded words.
    pub fn get_length(&self) -> (n: usize)
        ensures
            n == self@.len(),
    {
        self.wordles.len()
    }

    /// Groups the graded words by grade.
    ///
    /// The groups come in the order in which their grades first occur in the pool,
    /// and each holds its words in the order of the pool. A pool without words has no
    /// grouping.
    pub fn group_by_grade(&self) -> (r: Result<AllGroups, SolverError>)
        ensures
            r is Ok <==> self@.len() > 0,
            r is Ok ==> r->Ok_0@ == partition(self@),
            r is Err ==> r->Err_0 == SolverError::EmptyPool,
    {
        if self.wordles.len() == 0 {
            return Err(SolverError::EmptyPool);
        }
        let ghost graded = self@;
        let mut groups: Vec<Group> = Vec::new();
        let mut i: usize = 0;
        proof {
            assert(graded.subrange(0, 0) =~= Seq::empty());
            assert(buckets_of(groups@) =~= partition(graded.subrange(0, 0)));
        }
        while i < self.wordles.len()
            invariant
                i <= self.wordles@.len(),
                graded == graded_of(self.wordles@),
                buckets_of(groups@) == partition(graded.subrange(0, i as int)),
            decreases self.wordles@.len() - i,
        {
            let wordle = &self.wordles[i];
            let ghost done = graded.subrange(0, i as int);
            let ghost seen = grades_seen(done);
            let ghost before = groups@;
            let mut at: usize = 0;
            let mut found = false;
            proof {
                assert(buckets_of(before).len() == partition(done).len());
                assert forall|j: int| 0 <= j < before.len() implies (#[trigger] before[j])@.0
                    == seen[j] by {
                    assert(buckets_of(before)[j] == partition(done)[j]);
                }
            }
            while at < groups.len() && !found
                invariant
                    at <= groups@.len(),
                    groups@ == before,
                    seen.len() == before.len(),
                    forall|j: int| 0 <= j < before.len() ==> (#[trigger] before[j])@.0 == seen[j],
                    forall|j: int| 0 <= j < at ==> seen[j] != wordle@.1,
                    found ==> at < groups@.len() && seen[at as int] == wordle@.1,
                decreases groups@.len() - at + if found { 0int } else { 1int },
            {
                if groups[at].has_grade(wordle.grade) {
                    found = true;
                } else {
                    at = at + 1;
                }
            }
            proof {
                assert(wordle@ == graded[i as int]);
                assert(done.push(wordle@) =~= graded.subrange(0, i + 1));
                lemma_partition_push(done, wordle@);
                lemma_grades_seen_distinct(done);
            }
            if found {
                assert(seen.contains(wordle@.1));
                groups[at].push_word(wordle.word.clone());
                proof {
                    let place = choose|place: int|
                        0 <= place < partition(done).len() && (#[trigger] partition(done)[place]).0
                            == wordle@.1 && partition(done.push(wordle@)) == partition(done).update(
                            place,
                            (wordle@.1, partition(done)[place].1.push(wordle@.0)),
                        );
                    assert(place == at);
                    assert(buckets_of(before)[at as int] == partition(done)[at as int]);
                    assert(buckets_of(groups@) =~= partition(done.push(wordle@)));
                }
            } else {
                assert(!seen.contains(wordle@.1));
                groups.push(Group::new(wordle.grade, AllWords::new(wordle.word.clone())));
                proof {
                    assert(buckets_of(groups@) =~= partition(done.push(wordle@)));
                }
            }
            i = i + 1;
        }
        proof {
            assert(graded.subrange(0, graded.len() as int) =~= graded);
        }
        Ok(AllGroups::new(groups))
    }
}

} // verus!
