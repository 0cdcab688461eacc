//! The grade of a guess: a number below `3^5` whose base-3 digits, read from the
//! left, tell for each letter of the guess whether it is absent (0), present
//! elsewhere (1) or in its place (2).

use crate::error::SolverError;
use crate::ternary::{
    char_digit, clue_text, is_ternary_char, is_ternary_text, lemma_parse_of_ternary_text,
    lemma_ternary_digits_shape, parse_ternary, pow3, ternary_digits, ternary_text, ternary_value,
    text_digits,
};
use vstd::prelude::*;

verus! {

/// The number of letters of every word that is graded.
pub const WORD_LENGTH: usize = 5;

/// The number of grades: three to the power of `WORD_LENGTH`.
pub const GRADE_COUNT: u32 = 243;

/// `GRADE_COUNT` is three to the power of `WORD_LENGTH`.
pub proof fn lemma_grade_count()
    ensures
        GRADE_COUNT == pow3(WORD_LENGTH as nat),
{
    reveal_with_fuel(pow3, 6);
}

/// Writing a grade as its text and reading the text gives the grade back.
pub proof fn lemma_ternary_round_trip(value: nat)
    requires
        value < GRADE_COUNT,
    ensures
        parse_ternary(ternary_text(value, WORD_LENGTH as nat), WORD_LENGTH as nat) == Ok::<
            nat,
            SolverError,
        >(value),
{
    lemma_grade_count();
    lemma_parse_of_ternary_text(value, WORD_LENGTH as nat);
}

/// A grade: a number below `GRADE_COUNT`.
#[derive(Clone, Copy, Debug, PartialEq, Eq, Structural)]
pub struct Grade {
    grade: u32,
}

impl View for Grade {
    type V = nat;

    closed spec fn view(&self) -> nat {
        self.grade as nat
    }
}

impl Grade {
    #[verifier::type_invariant]
    closed spec fn in_range(self) -> bool {
        self.grade < GRADE_COUNT
    }

    /// The digits of the grade, one for each letter of the guess, from the left.
    pub open spec fn digits(self) -> Seq<nat> {
        ternary_digits(self@, WORD_LENGTH as nat)
    }

    /// Grades with one value are one grade.
    pub proof fn lemma_equal_by_value(self, other: Grade)
        requires
            self@ == other@,
        ensures
            self == other,
    {
    }

    /// The grade with the given number.
    pub fn new_from_decimal(decimal: u32) -> (g: Grade)
        requires
            decimal < GRADE_COUNT,
        ensures
            g@ == decimal,
    {
        Grade { grade: decimal }
    }

    /// Reads a grade from its text: `WORD_LENGTH` characters out of `'0'`, `'1'`, `'2'`,
    /// the first for the first letter.
    pub fn new_from_ternary(ternary: &str) -> (r: Result<Grade, SolverError>)
        ensures
            match r {
                Ok(g) => parse_ternary(ternary@, WORD_LENGTH as nat) == Ok::<nat, SolverError>(g@),
                Err(e) => parse_ternary(ternary@, WORD_LENGTH as nat) == Err::<nat, SolverError>(e),
            },
    {
        let mut valid = true;
        let mut count: usize = 0;
        let mut value: u32 = 0;
        proof {
            assert(ternary@.subrange(0, 0) =~= Seq::<char>::empty());
            assert(text_digits(Seq::<char>::empty()) =~= Seq::<nat>::empty());
        }
        for c in it: ternary.chars()
            invariant
                it.seq() == ternary@,
                valid == is_ternary_text(ternary@.subrange(0, it.index() as int)),
                count <= WORD_LENGTH + 1,
                count <= WORD_LENGTH ==> count == it.index(),
                count > WORD_LENGTH ==> it.index() > WORD_LENGTH,
                count <= WORD_LENGTH ==> value == ternary_value(
                    text_digits(ternary@.subrange(0, count as int)),
                ),
                count <= WORD_LENGTH ==> value < pow3(count as nat),
                value < GRADE_COUNT,
        {
            let ghost index = it.index() as int;
            let ghost before = ternary@.subrange(0, index);
            let ghost after = ternary@.subrange(0, index + 1);
            proof {
                assert(after.drop_last() =~= before);
                assert(after.last() == c);
                assert(is_ternary_text(after) == (is_ternary_text(before) && is_ternary_char(c)))
                    by {
                    if is_ternary_text(before) && is_ternary_char(c) {
                        assert forall|i: int| 0 <= i < after.len() implies is_ternary_char(
                            #[trigger] after[i],
                        ) by {
                            if i < index {
                                assert(after[i] == before[i]);
                            }
                        }
                    }
                    if is_ternary_text(after) {
                        assert(is_ternary_char(after[index]));
                        assert forall|i: int| 0 <= i < before.len() implies is_ternary_char(
                            #[trigger] before[i],
                        ) by {
                            assert(before[i] == after[i]);
                        }
                    }
                }
                assert(text_digits(after).drop_last() =~= text_digits(before));
                assert(text_digits(after).last() == char_digit(c));
                reveal_with_fuel(pow3, 6);
            }
            let digit: u32 = if c == '1' {
                1
            } else if c == '2' {
                2
            } else {
                0
            };
            if c != '0' && c != '1' && c != '2' {
                valid = false;
            }
            if count < WORD_LENGTH {
                value = value * 3 + digit;
            }
            if count <= WORD_LENGTH {
                count = count + 1;
            }
        }
        proof {
            assert(ternary@.subrange(0, ternary@.len() as int) =~= ternary@);
        }
        if !valid {
            Err(SolverError::InvalidDigit)
        } else if count != WORD_LENGTH {
            Err(SolverError::LengthMismatch)
        } else {
            Ok(Grade { grade: value })
        }
    }

    /// The digits of the grade from the right: the last letter's digit comes first.
    fn digits_from_right(&self) -> (low: Vec<u8>)
        ensures
            low@.len() == WORD_LENGTH,
            forall|i: int|
                0 <= i < WORD_LENGTH ==> (#[trigger] low@[i]) as nat == self.digits()[
                    WORD_LENGTH - 1 - i],
    {
        let ghost digits = self.digits();
        let mut low: Vec<u8> = Vec::new();
        let mut rest: u32 = self.grade;
        let mut taken: usize = 0;
        while taken < WORD_LENGTH
            invariant
                taken <= WORD_LENGTH,
                low@.len() == taken,
                digits == ternary_digits(self@, WORD_LENGTH as nat),
                forall|i: int|
                    0 <= i < taken ==> (#[trigger] low@[i]) as nat == digits[WORD_LENGTH - 1 - i],
                forall|i: int|
                    0 <= i < WORD_LENGTH - taken ==> digits[i] == ternary_digits(
                        rest as nat,
                        (WORD_LENGTH - taken) as nat,
                    )[i],
            decreases WORD_LENGTH - taken,
        {
            proof {
                lemma_ternary_digits_shape((rest / 3) as nat, (WORD_LENGTH - taken - 1) as nat);
            }
            low.push((rest % 3) as u8);
            rest = rest / 3;
            taken = taken + 1;
        }
        low
    }

    /// Writes one symbol for each digit, from the left.
    fn render(&self, absent: &str, present: &str, exact: &str) -> (text: String)
        requires
            absent@.len() == 1,
            present@.len() == 1,
            exact@.len() == 1,
        ensures
            text@ == Seq::new(
                WORD_LENGTH as nat,
                |i: int|
                    if self.digits()[i] == 0 {
                        absent@[0]
                    } else if self.digits()[i] == 1 {
                        present@[0]
                    } else {
                        exact@[0]
                    },
            ),
    {
        let ghost wanted = Seq::new(
            WORD_LENGTH as nat,
            |i: int|
                if self.digits()[i] == 0 {
                    absent@[0]
                } else if self.digits()[i] == 1 {
                    present@[0]
                } else {
                    exact@[0]
                },
        );
        let low = self.digits_from_right();
        let mut text = String::new();
        let mut written: usize = 0;
        while written < WORD_LENGTH
            invariant
                written <= WORD_LENGTH,
                low@.len() == WORD_LENGTH,
                forall|i: int|
                    0 <= i < WORD_LENGTH ==> (#[trigger] low@[i]) as nat == self.digits()[
                        WORD_LENGTH - 1 - i],
                absent@.len() == 1,
                present@.len() == 1,
                exact@.len() == 1,
                wanted.len() == WORD_LENGTH,
                forall|i: int|
                    0 <= i < WORD_LENGTH ==> #[trigger] wanted[i] == if self.digits()[i] == 0 {
                        absent@[0]
                    } else if self.digits()[i] == 1 {
                        present@[0]
                    } else {
                        exact@[0]
                    },
                text@ == wanted.subrange(0, written as int),
            decreases WORD_LENGTH - written,
        {
            let digit: u8 = low[WORD_LENGTH - 1 - written];
            assert(digit as nat == self.digits()[written as int]);
            if digit == 0 {
                text.append(absent);
                assert(absent@ =~= seq![wanted[written as int]]);
            } else if digit == 1 {
                text.append(present);
                assert(present@ =~= seq![wanted[written as int]]);
            } else {
                text.append(exact);
                assert(exact@ =~= seq![wanted[written as int]]);
            }
            assert(text@ =~= wanted.subrange(0, written + 1));
            written = written + 1;
        }
        assert(text@ =~= wanted);
        text
    }

    /// The number of the grade.
    pub fn get_grade(&self) -> (value: u32)
        ensures
            value == self@,
            value < GRADE_COUNT,
    {
        proof {
            use_type_invariant(self);
        }
        self.grade
    }

    /// The grade text: `WORD_LENGTH` characters, the first letter's digit first.
    pub fn decimal_to_ternary(&self) -> (text: String)
        ensures
            text@ == ternary_text(self@, WORD_LENGTH as nat),
    {
        proof {
            reveal_strlit("0");
            reveal_strlit("1");
            reveal_strlit("2");
        }
        let text = self.render("0", "1", "2");
        assert(text@ =~= ternary_text(self@, WORD_LENGTH as nat));
        text
    }

    /// The clue: one coloured square for each letter of the guess, from the left.
    pub fn get_color_boxes(&self) -> (boxes: String)
        ensures
            boxes@ == clue_text(self@, WORD_LENGTH as nat),
    {
        proof {
            reveal_strlit("⬛");
            reveal_strlit("🟨");
            reveal_strlit("🟩");
        }
        let boxes = self.render("⬛", "🟨", "🟩");
        assert(boxes@ =~= clue_text(self@, WORD_LENGTH as nat));
        boxes
    }
}

} // verus!
