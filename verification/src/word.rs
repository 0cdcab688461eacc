//! Words and pools of words.

use crate::error::SolverError;
use crate::grade::{Grade, WORD_LENGTH};
use crate::grading::{grade_digits, grade_letters, grade_of, lemma_digits_of_grade};
use crate::wordle::{graded_of, graded_pool, AllWordles, Wordle};
use rayon::iter::{IntoParallelRefIterator, ParallelIterator};
use std::str::Chars;
use vstd::prelude::*;
use vstd::std_specs::cmp::PartialEqSpecImpl;
use vstd::std_specs::iter::IteratorSpec;

verus! {

/// A word: its text, and its letters laid out for grading.
#[derive(Debug)]
pub struct Word {
    word: String,
    letters: Vec<char>,
}

impl View for Word {
    type V = Seq<char>;

    closed spec fn view(&self) -> Seq<char> {
        self.word@
    }
}

impl Clone for Word {
    fn clone(&self) -> (copy: Self)
        ensures
            copy@ == self@,
    {
        proof {
            use_type_invariant(self);
        }
        let letters = self.letters.clone();
        assert(letters@ =~= self.letters@);
        Word { word: self.word.clone(), letters }
    }
}

impl PartialEq for Word {
    fn eq(&self, other: &Self) -> (equal: bool) {
        self.word == other.word
    }
}

impl PartialEqSpecImpl for Word {
    open spec fn obeys_eq_spec() -> bool {
        true
    }

    open spec fn eq_spec(&self, other: &Self) -> bool {
        self@ == other@
    }
}

impl Word {
    #[verifier::type_invariant]
    closed spec fn letters_match(&self) -> bool {
        self.letters@ == self.word@
    }

    /// The word with the given text.
    pub fn new(word: String) -> (made: Word)
        ensures
            made@ == word@,
    {
        let mut letters: Vec<char> = Vec::new();
        for c in it: word.as_str().chars()
            invariant
                it.seq() == word@,
                letters@ == word@.subrange(0, it.index() as int),
        {
            letters.push(c);
            assert(letters@ =~= word@.subrange(0, it.index() + 1));
        }
        assert(letters@ =~= word@);
        Word { word, letters }
    }

    /// The text of the word.
    pub fn as_str(&self) -> (text: &str)
        ensures
            text@ == self@,
    {
        self.word.as_str()
    }

    /// An iterator over the letters, from the left.
    pub fn chars(&self) -> (iter: Chars<'_>)
        ensures
            iter.remaining() == self@,
            iter.decrease() is Some,
            iter.initial_value_relation(&iter),
    {
        broadcast use vstd::string::axiom_spec_iter;

        self.word.as_str().chars()
    }

    /// The number of letters.
    pub fn len(&self) -> (n: usize)
        ensures
            n == self@.len(),
    {
        proof {
            use_type_invariant(self);
        }
        self.letters.len()
    }

    /// The grade of `guess` where `self` is the answer.
    ///
    /// Both words must have `WORD_LENGTH` letters; otherwise the lengths do not match.
    pub fn get_grade(&self, guess: &Word) -> (r: Result<Grade, SolverError>)
        ensures
            r is Ok <==> self@.len() == WORD_LENGTH && guess@.len() == WORD_LENGTH,
            r is Ok ==> r->Ok_0@ == grade_of(self@, guess@),
            r is Ok ==> r->Ok_0.digits() == grade_digits(self@, guess@),
            r is Err ==> r->Err_0 == SolverError::LengthMismatch,
    {
        proof {
            use_type_invariant(self);
            use_type_invariant(guess);
            lemma_digits_of_grade(self@, guess@);
        }
        if self.letters.len() != WORD_LENGTH || guess.letters.len() != WORD_LENGTH {
            return Err(SolverError::LengthMismatch);
        }
        Ok(Grade::new_from_decimal(grade_letters(&self.letters, &guess.letters)))
    }
}

/// A pool of words, in the order in which they were put in.
#[derive(Debug)]
pub struct AllWords {
    pub words: Vec<Word>,
}

impl View for AllWords {
    type V = Seq<Seq<char>>;

    open spec fn view(&self) -> Seq<Seq<char>> {
        Seq::new(self.words@.len(), |i: int| self.words@[i]@)
    }
}

impl Clone for AllWords {
    fn clone(&self) -> (copy: Self)
        ensures
            copy@ == self@,
    {
        let mut words: Vec<Word> = Vec::new();
        let mut i: usize = 0;
        while i < self.words.len()
            invariant
                i <= self.words@.len(),
                words@.len() == i,
                forall|k: int| 0 <= k < i ==> words@[k]@ == self.words@[k]@,
            decreases self.words@.len() - i,
        {
            words.push(self.words[i].clone());
            i = i + 1;
        }
        let copy = AllWords { words };
        assert(copy@ =~= self@);
        copy
    }
}

/// Grades every word of a pool against one guess, by `rayon`'s `par_iter`, `map` and
/// `collect` into a `Vec`.
///
/// Taken on trust: the result holds, for each word in the order of the pool, what
/// `Wordle::graded` gives for it.
#[verifier::external_body]
fn par_grade_all(words: &Vec<Word>, guess: &Word) -> (wordles: Vec<Wordle>)
    requires
        guess@.len() == WORD_LENGTH,
        forall|i: int| 0 <= i < words@.len() ==> (#[trigger] words@[i])@.len() == WORD_LENGTH,
    ensures
        wordles@.len() == words@.len(),
        forall|i: int|
            0 <= i < words@.len() ==> (#[trigger] wordles@[i])@ == (
                words@[i]@,
                grade_of(words@[i]@, guess@),
            ),
{
    words.par_iter().map(|word| Wordle::graded(word, guess)).collect()
}

impl AllWords {
    /// Every word of the pool has `WORD_LENGTH` letters.
    pub open spec fn all_gradable(pool: Seq<Seq<char>>) -> bool {
        forall|i: int| 0 <= i < pool.len() ==> (#[trigger] pool[i]).len() == WORD_LENGTH
    }

    /// A pool of one word.
    pub fn new(word: Word) -> (pool: AllWords)
        ensures
            pool@ == seq![word@],
    {
        let mut words: Vec<Word> = Vec::new();
        words.push(word);
        let pool = AllWords { words };
        assert(pool@ =~= seq![word@]);
        pool
    }

    /// The pool of the given words, in their order.
    pub fn new_from_vec(words: Vec<Word>) -> (pool: AllWords)
        ensures
            pool.words == words,
    {
        AllWords { words }
    }

    /// Puts a word at the end of the pool.
    pub fn push_word(&mut self, word: Word)
        ensures
            final(self)@ == old(self)@.push(word@),
    {
        self.words.push(word);
        assert(self@ =~= old(self)@.push(word@));
    }

    /// Puts a word at the end of the pool.
    pub fn push(&mut self, word: Word)
        ensures
            final(self)@ == old(self)@.push(word@),
    {
        self.push_word(word);
    }

    /// The number of words in the pool.
    pub fn get_length(&self) -> (n: usize)
        ensures
            n == self@.len(),
    {
        self.words.len()
    }

    /// The word at the given place, counted from 0.
    pub fn get(&self, index: usize) -> (word: &Word)
        requires
            index < self@.len(),
        ensures
            *word == self.words@[index as int],
            word@ == self@[index as int],
    {
        &self.words[index]
    }

    /// Grades every word of the pool as the answer to one guess.
    ///
    /// The guess and every word of the pool must have `WORD_LENGTH` letters; otherwise
    /// the lengths do not match.
    pub fn grade_all(&self, guess: &Word) -> (r: Result<AllWordles, SolverError>)
        ensures
            r is Ok <==> guess@.len() == WORD_LENGTH && Self::all_gradable(self@),
            r is Ok ==> r->Ok_0@ == graded_pool(self@, guess@),
            r is Err ==> r->Err_0 == SolverError::LengthMismatch,
    {
        if guess.len() != WORD_LENGTH || !self.is_gradable() {
            return Err(SolverError::LengthMismatch);
        }
        Ok(self.grade_all_gradable(guess))
    }

    /// Grades every word of the pool as the answer to one guess, where the lengths
    /// are known to be right.
    pub(crate) fn grade_all_gradable(&self, guess: &Word) -> (wordles: AllWordles)
        requires
            guess@.len() == WORD_LENGTH,
            Self::all_gradable(self@),
        ensures
            wordles@ == graded_pool(self@, guess@),
    {
        assert forall|i: int| 0 <= i < self.words@.len() implies (#[trigger] self.words@[i])@.len()
            == WORD_LENGTH by {
            assert(self@[i].len() == WORD_LENGTH);
        }
        let wordles = par_grade_all(&self.words, guess);
        assert(graded_of(wordles@) =~= graded_pool(self@, guess@));
        AllWordles::new_from_vec(wordles)
    }

    /// Whether every word of the pool has `WORD_LENGTH` letters.
    pub fn is_gradable(&self) -> (all: bool)
        ensures
            all == Self::all_gradable(self@),
    {
        let mut i: usize = 0;
        while i < self.words.len()
            invariant
                i <= self.words@.len(),
                forall|k: int| 0 <= k < i ==> (#[trigger] self@[k]).len() == WORD_LENGTH,
            decreases self.words@.len() - i,
        {
            if self.words[i].len() != WORD_LENGTH {
                assert(self@[i as int].len() != WORD_LENGTH);
                return false;
            }
            i = i + 1;
        }
        true
    }
}

} // verus!
