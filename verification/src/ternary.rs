//! Base-3 numerals of a fixed width, most significant digit first.
//!
//! A grade is a number; its digits, read from the left, belong to the letters of the
//! guess read from the left. Everything here is ghost code: the definitions that the
//! contracts of the grade type speak of, and the facts that relate them.

use crate::error::SolverError;
use vstd::prelude::*;

verus! {

/// Three to the power of `n`.
pub open spec fn pow3(n: nat) -> nat
    decreases n,
{
    if n == 0 {
        1
    } else {
        3 * pow3((n - 1) as nat)
    }
}

/// The `len` low base-3 digits of `n`, most significant first.
pub open spec fn ternary_digits(n: nat, len: nat) -> Seq<nat>
    decreases len,
{
    if len == 0 {
        Seq::empty()
    } else {
        ternary_digits(n / 3, (len - 1) as nat).push(n % 3)
    }
}

/// The number that a sequence of base-3 digits denotes, most significant first.
pub open spec fn ternary_value(digits: Seq<nat>) -> nat
    decreases digits.len(),
{
    if digits.len() == 0 {
        0
    } else {
        3 * ternary_value(digits.drop_last()) + digits.last()
    }
}

/// Every element is 0, 1 or 2.
pub open spec fn is_ternary(digits: Seq<nat>) -> bool {
    forall|i: int| 0 <= i < digits.len() ==> #[trigger] digits[i] <= 2
}

/// The character that stands for a digit in a grade text.
pub open spec fn digit_char(d: nat) -> char {
    if d == 0 {
        '0'
    } else if d == 1 {
        '1'
    } else {
        '2'
    }
}

/// The digit that a character of a grade text stands for.
pub open spec fn char_digit(c: char) -> nat {
    if c == '1' {
        1
    } else if c == '2' {
        2
    } else {
        0
    }
}

/// The character is one of `'0'`, `'1'`, `'2'`.
pub open spec fn is_ternary_char(c: char) -> bool {
    c == '0' || c == '1' || c == '2'
}

/// Every character is one of `'0'`, `'1'`, `'2'`.
pub open spec fn is_ternary_text(text: Seq<char>) -> bool {
    forall|i: int| 0 <= i < text.len() ==> is_ternary_char(#[trigger] text[i])
}

/// The digits that the characters of a grade text stand for, in the same order.
pub open spec fn text_digits(text: Seq<char>) -> Seq<nat> {
    Seq::new(text.len(), |i: int| char_digit(text[i]))
}

/// The grade text of `n` in `len` characters.
pub open spec fn ternary_text(n: nat, len: nat) -> Seq<char> {
    Seq::new(len, |i: int| digit_char(ternary_digits(n, len)[i]))
}

/// The clue symbol of a digit: a black square for 0, a yellow one for 1, a green one
/// for 2.
pub open spec fn clue_symbol(d: nat) -> char {
    if d == 0 {
        '⬛'
    } else if d == 1 {
        '🟨'
    } else {
        '🟩'
    }
}

/// The clue of `n` in `len` symbols, in the order of the grade text.
pub open spec fn clue_text(n: nat, len: nat) -> Seq<char> {
    Seq::new(len, |i: int| clue_symbol(ternary_digits(n, len)[i]))
}

/// What reading a grade text of `len` characters gives: its value, or the reason why
/// it is turned away. A character that is no digit counts before a wrong length.
pub open spec fn parse_ternary(text: Seq<char>, len: nat) -> Result<nat, SolverError> {
    if !is_ternary_text(text) {
        Err(SolverError::InvalidDigit)
    } else if text.len() != len {
        Err(SolverError::LengthMismatch)
    } else {
        Ok(ternary_value(text_digits(text)))
    }
}

/// `ternary_digits(n, len)` has `len` elements, each of them a base-3 digit.
pub proof fn lemma_ternary_digits_shape(n: nat, len: nat)
    ensures
        ternary_digits(n, len).len() == len,
        is_ternary(ternary_digits(n, len)),
    decreases len,
{
    if len > 0 {
        lemma_ternary_digits_shape(n / 3, (len - 1) as nat);
    }
}

/// A number below `3^len` is the value of its `len` digits.
pub proof fn lemma_value_of_digits(n: nat, len: nat)
    requires
        n < pow3(len),
    ensures
        ternary_value(ternary_digits(n, len)) == n,
    decreases len,
{
    if len > 0 {
        let rest = ternary_digits(n / 3, (len - 1) as nat);
        lemma_value_of_digits(n / 3, (len - 1) as nat);
        assert(rest.push(n % 3).drop_last() =~= rest);
    }
}

/// The value of `len` base-3 digits is below `3^len`, and its digits are those digits.
pub proof fn lemma_digits_of_value(digits: Seq<nat>)
    requires
        is_ternary(digits),
    ensures
        ternary_value(digits) < pow3(digits.len()),
        ternary_digits(ternary_value(digits), digits.len()) == digits,
    decreases digits.len(),
{
    if digits.len() > 0 {
        let front = digits.drop_last();
        assert(is_ternary(front)) by {
            assert forall|i: int| 0 <= i < front.len() implies #[trigger] front[i] <= 2 by {
                assert(front[i] == digits[i]);
            }
        }
        lemma_digits_of_value(front);
        assert(digits.last() <= 2);
        let v = ternary_value(digits);
        assert(v / 3 == ternary_value(front) && v % 3 == digits.last());
        assert(ternary_digits(v, digits.len()) =~= digits);
    } else {
        assert(ternary_digits(0, 0) =~= digits);
    }
}

/// Digit sequences of one length with one value are the same sequence.
pub proof fn lemma_value_injective(a: Seq<nat>, b: Seq<nat>)
    requires
        is_ternary(a),
        is_ternary(b),
        a.len() == b.len(),
        ternary_value(a) == ternary_value(b),
    ensures
        a == b,
{
    lemma_digits_of_value(a);
    lemma_digits_of_value(b);
}

/// A grade text that was written from a number reads back as its digits.
pub proof fn lemma_text_digits_of_ternary_text(n: nat, len: nat)
    ensures
        is_ternary_text(ternary_text(n, len)),
        text_digits(ternary_text(n, len)) == ternary_digits(n, len),
{
    lemma_ternary_digits_shape(n, len);
    let digits = ternary_digits(n, len);
    let text = ternary_text(n, len);
    assert forall|i: int| 0 <= i < text.len() implies is_ternary_char(#[trigger] text[i]) by {
        assert(digits[i] <= 2);
    }
    assert forall|i: int| 0 <= i < len implies text_digits(text)[i] == digits[i] by {
        assert(digits[i] <= 2);
    }
    assert(text_digits(text) =~= digits);
}

/// Writing a number below `3^len` as a grade text and reading the text gives the
/// number back.
pub proof fn lemma_parse_of_ternary_text(n: nat, len: nat)
    requires
        n < pow3(len),
    ensures
        parse_ternary(ternary_text(n, len), len) == Ok::<nat, SolverError>(n),
{
    lemma_text_digits_of_ternary_text(n, len);
    lemma_value_of_digits(n, len);
}

/// Reading a grade text and writing the value gives the text back.
pub proof fn lemma_ternary_text_of_parse(text: Seq<char>, len: nat)
    requires
        parse_ternary(text, len) is Ok,
    ensures
        ternary_text(parse_ternary(text, len)->Ok_0, len) == text,
{
    let digits = text_digits(text);
    assert(is_ternary(digits));
    lemma_digits_of_value(digits);
    let back = ternary_text(ternary_value(digits), len);
    assert forall|i: int| 0 <= i < len implies back[i] == text[i] by {
        assert(is_ternary_char(text[i]));
    }
    assert(back =~= text);
}

} // verus!
