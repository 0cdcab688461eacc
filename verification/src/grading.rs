//! What the grade of a guess against an answer is.
//!
//! A letter of the guess that stands in its place in the answer is exact. Of the
//! other letters of the guess, read from the left, one is present as long as the
//! answer still has a spare occurrence of it: an occurrence that is not exact and that
//! no earlier letter of the guess has used. Counting says the same without telling
//! which occurrence is used: the letter at position `i` is present if fewer misplaced
//! occurrences of it come before `i` in the guess than the answer has spare ones.

use crate::grade::{GRADE_COUNT, WORD_LENGTH};
use crate::ternary::{
    clue_symbol, clue_text, digit_char, is_ternary, lemma_digits_of_value, pow3, ternary_digits,
    ternary_text, ternary_value,
};
use vstd::prelude::*;

verus! {

/// The number of positions below `n` at which `a` has the letter `c` and `b` has not.
///
/// With the answer for `a` and the guess for `b` these are the spare occurrences of
/// `c` in the answer; with the guess for `a` and the answer for `b`, the misplaced
/// occurrences of `c` in the guess.
pub open spec fn unmatched(a: Seq<char>, b: Seq<char>, c: char, n: nat) -> nat
    decreases n,
{
    if n == 0 {
        0
    } else {
        unmatched(a, b, c, (n - 1) as nat) + if a[n - 1] == c && b[n - 1] != c {
            1nat
        } else {
            0nat
        }
    }
}

/// The smaller of two numbers.
pub open spec fn smaller(a: nat, b: nat) -> nat {
    if a <= b {
        a
    } else {
        b
    }
}

/// The digit of the letter at position `i` of the guess: 2 if it is exact, 1 if it is
/// present elsewhere, 0 if it is absent.
pub open spec fn grade_digit(answer: Seq<char>, guess: Seq<char>, i: int) -> nat {
    if guess[i] == answer[i] {
        2
    } else if unmatched(guess, answer, guess[i], i as nat) < unmatched(
        answer,
        guess,
        guess[i],
        answer.len(),
    ) {
        1
    } else {
        0
    }
}

/// The digits of the grade, one for each letter of the guess, from the left.
pub open spec fn grade_digits(answer: Seq<char>, guess: Seq<char>) -> Seq<nat> {
    Seq::new(guess.len(), |i: int| grade_digit(answer, guess, i))
}

/// The grade as a number: its digits read in base 3, the first letter's digit being
/// the most significant.
pub open spec fn grade_of(answer: Seq<char>, guess: Seq<char>) -> nat {
    ternary_value(grade_digits(answer, guess))
}

/// The number of positions below `n` at which the guess has the letter `c` and is
/// marked present.
pub open spec fn present_marks(answer: Seq<char>, guess: Seq<char>, c: char, n: nat) -> nat
    decreases n,
{
    if n == 0 {
        0
    } else {
        present_marks(answer, guess, c, (n - 1) as nat) + if guess[n - 1] == c && grade_digit(
            answer,
            guess,
            n - 1,
        ) == 1 {
            1nat
        } else {
            0nat
        }
    }
}

/// The digits of a grade are base-3 digits, one for each letter of the guess.
pub proof fn lemma_grade_digits_shape(answer: Seq<char>, guess: Seq<char>)
    ensures
        grade_digits(answer, guess).len() == guess.len(),
        is_ternary(grade_digits(answer, guess)),
{
}

/// The grade of a guess has the digits of its letters: the digits of the number, its
/// text and its clue all follow the letters of the guess from the left.
pub proof fn lemma_digits_of_grade(answer: Seq<char>, guess: Seq<char>)
    ensures
        grade_of(answer, guess) < pow3(guess.len()),
        ternary_digits(grade_of(answer, guess), guess.len()) == grade_digits(answer, guess),
        forall|i: int|
            0 <= i < guess.len() ==> #[trigger] ternary_text(grade_of(answer, guess), guess.len())[i]
                == digit_char(grade_digit(answer, guess, i)),
        forall|i: int|
            0 <= i < guess.len() ==> #[trigger] clue_text(grade_of(answer, guess), guess.len())[i]
                == clue_symbol(grade_digit(answer, guess, i)),
{
    lemma_grade_digits_shape(answer, guess);
    lemma_digits_of_value(grade_digits(answer, guess));
}

/// `unmatched` grows with the number of positions that are counted.
pub proof fn lemma_unmatched_monotonic(a: Seq<char>, b: Seq<char>, c: char, m: nat, n: nat)
    requires
        m <= n,
    ensures
        unmatched(a, b, c, m) <= unmatched(a, b, c, n),
    decreases n,
{
    if m < n {
        lemma_unmatched_monotonic(a, b, c, m, (n - 1) as nat);
    }
}

/// A letter that `a` does not have below `n` is counted nowhere.
pub proof fn lemma_unmatched_of_missing_letter(a: Seq<char>, b: Seq<char>, c: char, n: nat)
    requires
        forall|k: int| 0 <= k < n ==> a[k] != c,
    ensures
        unmatched(a, b, c, n) == 0,
    decreases n,
{
    if n > 0 {
        lemma_unmatched_of_missing_letter(a, b, c, (n - 1) as nat);
    }
}

/// The value of `n` digits that are all 2 is `3^n - 1`; of digits that are all 0, it
/// is 0.
pub proof fn lemma_value_of_constant_digits(digits: Seq<nat>, d: nat)
    requires
        d == 0 || d == 2,
        forall|i: int| 0 <= i < digits.len() ==> digits[i] == d,
    ensures
        d == 0 ==> ternary_value(digits) == 0,
        d == 2 ==> ternary_value(digits) == pow3(digits.len()) - 1,
    decreases digits.len(),
{
    if digits.len() > 0 {
        lemma_value_of_constant_digits(digits.drop_last(), d);
    }
}

/// Guessing the answer itself gives the highest grade: every letter exact.
pub proof fn lemma_grade_of_answer_itself(word: Seq<char>)
    ensures
        grade_of(word, word) == pow3(word.len()) - 1,
        forall|i: int| 0 <= i < word.len() ==> grade_digits(word, word)[i] == 2,
{
    lemma_value_of_constant_digits(grade_digits(word, word), 2);
}

/// A guess that shares no letter with the answer gets the grade 0: every letter
/// absent.
pub proof fn lemma_grade_without_shared_letters(answer: Seq<char>, guess: Seq<char>)
    requires
        answer.len() == guess.len(),
        forall|i: int, j: int| 0 <= i < answer.len() && 0 <= j < guess.len() ==> answer[i] != guess[j],
    ensures
        grade_of(answer, guess) == 0,
        forall|i: int| 0 <= i < guess.len() ==> grade_digits(answer, guess)[i] == 0,
{
    let digits = grade_digits(answer, guess);
    assert forall|i: int| 0 <= i < digits.len() implies digits[i] == 0 by {
        assert(answer[i] != guess[i]);
        lemma_unmatched_of_missing_letter(answer, guess, guess[i], answer.len());
    }
    lemma_value_of_constant_digits(digits, 0);
}

/// Of one letter, as many positions of the guess are marked present as the guess has
/// misplaced occurrences of it, up to the number of spare occurrences in the answer.
pub proof fn lemma_present_marks(answer: Seq<char>, guess: Seq<char>, c: char, n: nat)
    requires
        answer.len() == guess.len(),
        n <= guess.len(),
    ensures
        present_marks(answer, guess, c, n) == smaller(
            unmatched(guess, answer, c, n),
            unmatched(answer, guess, c, answer.len()),
        ),
    decreases n,
{
    if n > 0 {
        lemma_present_marks(answer, guess, c, (n - 1) as nat);
    }
}

/// Of a repeated letter no more positions are marked present than the answer has
/// spare occurrences of it, and they are the leftmost misplaced ones: where a
/// position is marked present, every misplaced occurrence of the same letter before
/// it is marked present too.
pub proof fn lemma_present_marks_go_left_to_right(answer: Seq<char>, guess: Seq<char>, c: char)
    requires
        answer.len() == guess.len(),
    ensures
        present_marks(answer, guess, c, guess.len()) <= unmatched(answer, guess, c, answer.len()),
        forall|i: int, j: int|
            0 <= j < i < guess.len() && guess[i] == c && guess[j] == c && answer[j] != c
                && grade_digit(answer, guess, i) == 1 ==> grade_digit(answer, guess, j) == 1,
{
    lemma_present_marks(answer, guess, c, guess.len());
    assert forall|i: int, j: int|
        0 <= j < i < guess.len() && guess[i] == c && guess[j] == c && answer[j] != c
            && grade_digit(answer, guess, i) == 1 implies grade_digit(answer, guess, j) == 1 by {
        lemma_unmatched_monotonic(guess, answer, c, j as nat, i as nat);
    }
}

/// The number of spare occurrences of `c` below `n` in the answer that are marked as
/// used.
spec fn taken(answer: Seq<char>, guess: Seq<char>, used: Seq<bool>, c: char, n: nat) -> nat
    decreases n,
{
    if n == 0 {
        0
    } else {
        taken(answer, guess, used, c, (n - 1) as nat) + if used[n - 1] && answer[n - 1] == c
            && guess[n - 1] != c {
            1nat
        } else {
            0nat
        }
    }
}

/// While only exact positions are marked, no spare occurrence is taken.
proof fn lemma_taken_none(answer: Seq<char>, guess: Seq<char>, used: Seq<bool>, c: char, n: nat)
    requires
        forall|k: int| 0 <= k < n && used[k] ==> answer[k] == guess[k],
    ensures
        taken(answer, guess, used, c, n) == 0,
    decreases n,
{
    if n > 0 {
        lemma_taken_none(answer, guess, used, c, (n - 1) as nat);
    }
}

/// No more occurrences are taken than are spare.
proof fn lemma_taken_bound(answer: Seq<char>, guess: Seq<char>, used: Seq<bool>, c: char, n: nat)
    ensures
        taken(answer, guess, used, c, n) <= unmatched(answer, guess, c, n),
    decreases n,
{
    if n > 0 {
        lemma_taken_bound(answer, guess, used, c, (n - 1) as nat);
    }
}

/// A spare occurrence that is not marked keeps the taken ones below the spare ones.
proof fn lemma_taken_below(
    answer: Seq<char>,
    guess: Seq<char>,
    used: Seq<bool>,
    c: char,
    n: nat,
    k: int,
)
    requires
        0 <= k < n,
        !used[k],
        answer[k] == c,
        guess[k] != c,
    ensures
        taken(answer, guess, used, c, n) < unmatched(answer, guess, c, n),
    decreases n,
{
    if k == n - 1 {
        lemma_taken_bound(answer, guess, used, c, (n - 1) as nat);
    } else {
        lemma_taken_below(answer, guess, used, c, (n - 1) as nat, k);
    }
}

/// Where every spare occurrence is marked, all of them are taken.
proof fn lemma_taken_all(answer: Seq<char>, guess: Seq<char>, used: Seq<bool>, c: char, n: nat)
    requires
        forall|k: int| 0 <= k < n && answer[k] == c && guess[k] != c ==> used[k],
    ensures
        taken(answer, guess, used, c, n) == unmatched(answer, guess, c, n),
    decreases n,
{
    if n > 0 {
        lemma_taken_all(answer, guess, used, c, (n - 1) as nat);
    }
}

/// Marking one spare occurrence of a letter takes one more of that letter and leaves
/// the other letters as they were.
proof fn lemma_taken_after_mark(
    answer: Seq<char>,
    guess: Seq<char>,
    used: Seq<bool>,
    at: int,
    c: char,
    n: nat,
)
    requires
        0 <= at < used.len(),
        n <= used.len(),
        !used[at],
        guess[at] != answer[at],
    ensures
        taken(answer, guess, used.update(at, true), c, n) == taken(answer, guess, used, c, n) + if at
            < n && answer[at] == c {
            1nat
        } else {
            0nat
        },
    decreases n,
{
    if n > 0 {
        lemma_taken_after_mark(answer, guess, used, at, c, (n - 1) as nat);
    }
}

/// Grades a guess against an answer, both of `WORD_LENGTH` letters.
///
/// The first pass marks the exact letters and the occurrences in the answer that they
/// use. The second pass goes through the other letters of the guess from the left and
/// gives each the first occurrence in the answer that is still unused, if there is
/// one.
pub(crate) fn grade_letters(answer: &Vec<char>, guess: &Vec<char>) -> (value: u32)
    requires
        answer@.len() == WORD_LENGTH,
        guess@.len() == WORD_LENGTH,
    ensures
        value == grade_of(answer@, guess@),
        value < GRADE_COUNT,
{
    let mut used: [bool; WORD_LENGTH] = [false;WORD_LENGTH];
    let mut digits: [u8; WORD_LENGTH] = [0;WORD_LENGTH];
    let mut i: usize = 0;
    while i < WORD_LENGTH
        invariant
            i <= WORD_LENGTH,
            answer@.len() == WORD_LENGTH,
            guess@.len() == WORD_LENGTH,
            forall|k: int| 0 <= k < WORD_LENGTH ==> used@[k] == (k < i && answer@[k] == guess@[k]),
            forall|k: int|
                0 <= k < WORD_LENGTH ==> digits@[k] == if k < i && answer@[k] == guess@[k] {
                    2u8
                } else {
                    0u8
                },
        decreases WORD_LENGTH - i,
    {
        if guess[i] == answer[i] {
            used[i] = true;
            digits[i] = 2;
        }
        i = i + 1;
    }
    proof {
        assert forall|c: char| #[trigger]
            taken(answer@, guess@, used@, c, WORD_LENGTH as nat) == smaller(
                unmatched(guess@, answer@, c, 0),
                unmatched(answer@, guess@, c, WORD_LENGTH as nat),
            ) by {
            lemma_taken_none(answer@, guess@, used@, c, WORD_LENGTH as nat);
        }
    }
    i = 0;
    while i < WORD_LENGTH
        invariant
            i <= WORD_LENGTH,
            answer@.len() == WORD_LENGTH,
            guess@.len() == WORD_LENGTH,
            forall|k: int| 0 <= k < WORD_LENGTH && answer@[k] == guess@[k] ==> used@[k],
            forall|c: char| #[trigger]
                taken(answer@, guess@, used@, c, WORD_LENGTH as nat) == smaller(
                    unmatched(guess@, answer@, c, i as nat),
                    unmatched(answer@, guess@, c, WORD_LENGTH as nat),
                ),
            forall|k: int| 0 <= k < i ==> digits@[k] == grade_digit(answer@, guess@, k),
            forall|k: int|
                i <= k < WORD_LENGTH ==> digits@[k] == if answer@[k] == guess@[k] {
                    2u8
                } else {
                    0u8
                },
        decreases WORD_LENGTH - i,
    {
        let letter = guess[i];
        if letter != answer[i] {
            let ghost before = used@;
            let mut k: usize = 0;
            let mut found = false;
            while k < WORD_LENGTH && !found
                invariant
                    k <= WORD_LENGTH,
                    i < WORD_LENGTH,
                    answer@.len() == WORD_LENGTH,
                    guess@.len() == WORD_LENGTH,
                    letter == guess@[i as int],
                    !found ==> used@ == before,
                    !found ==> digits@[i as int] == 0,
                    !found ==> forall|j: int| 0 <= j < k ==> used@[j] || answer@[j] != letter,
                    found ==> k < WORD_LENGTH && !before[k as int] && answer@[k as int] == letter
                        && used@ == before.update(k as int, true) && digits@[i as int] == 1,
                    forall|j: int| 0 <= j < i ==> digits@[j] == grade_digit(answer@, guess@, j),
                    forall|j: int|
                        i < j < WORD_LENGTH ==> digits@[j] == if answer@[j] == guess@[j] {
                            2u8
                        } else {
                            0u8
                        },
                decreases WORD_LENGTH - k + if found { 0int } else { 1int },
            {
                if !used[k] && answer[k] == letter {
                    used[k] = true;
                    digits[i] = 1;
                    found = true;
                } else {
                    k = k + 1;
                }
            }
            proof {
                let a = answer@;
                let g = guess@;
                let len = WORD_LENGTH as nat;
                if found {
                    lemma_taken_below(a, g, before, letter, len, k as int);
                    assert forall|c: char| #[trigger]
                        taken(a, g, used@, c, len) == smaller(
                            unmatched(g, a, c, (i + 1) as nat),
                            unmatched(a, g, c, len),
                        ) by {
                        lemma_taken_after_mark(a, g, before, k as int, c, len);
                        assert(taken(a, g, before, c, len) == smaller(
                            unmatched(g, a, c, i as nat),
                            unmatched(a, g, c, len),
                        ));
                    }
                } else {
                    lemma_taken_all(a, g, before, letter, len);
                    assert forall|c: char| #[trigger]
                        taken(a, g, used@, c, len) == smaller(
                            unmatched(g, a, c, (i + 1) as nat),
                            unmatched(a, g, c, len),
                        ) by {
                        assert(taken(a, g, before, c, len) == smaller(
                            unmatched(g, a, c, i as nat),
                            unmatched(a, g, c, len),
                        ));
                    }
                }
                assert(taken(a, g, before, letter, len) == smaller(
                    unmatched(g, a, letter, i as nat),
                    unmatched(a, g, letter, len),
                ));
            }
        }
        i = i + 1;
    }
    let mut value: u32 = 0;
    i = 0;
    proof {
        lemma_grade_digits_shape(answer@, guess@);
        assert(grade_digits(answer@, guess@).subrange(0, 0) =~= Seq::<nat>::empty());
    }
    while i < WORD_LENGTH
        invariant
            i <= WORD_LENGTH,
            answer@.len() == WORD_LENGTH,
            guess@.len() == WORD_LENGTH,
            forall|k: int| 0 <= k < WORD_LENGTH ==> digits@[k] == grade_digit(answer@, guess@, k),
            value == ternary_value(grade_digits(answer@, guess@).subrange(0, i as int)),
            value < pow3(i as nat),
        decreases WORD_LENGTH - i,
    {
        proof {
            let all = grade_digits(answer@, guess@);
            assert(all.subrange(0, i + 1).drop_last() =~= all.subrange(0, i as int));
            assert(all.subrange(0, i + 1).last() == grade_digit(answer@, guess@, i as int));
            reveal_with_fuel(pow3, 6);
        }
        value = value * 3 + digits[i] as u32;
        i = i + 1;
    }
    proof {
        let all = grade_digits(answer@, guess@);
        assert(all.subrange(0, WORD_LENGTH as int) =~= all);
        reveal_with_fuel(pow3, 6);
    }
    value
}

} // verus!
