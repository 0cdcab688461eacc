use wordle_solver::error::SolverError;
use wordle_solver::grade::{Grade, GRADE_COUNT, WORD_LENGTH};

#[test]
fn word_length_and_grade_count_agree() {
    assert_eq!(WORD_LENGTH, 5);
    assert_eq!(GRADE_COUNT, 3u32.pow(WORD_LENGTH as u32));
}

#[test]
fn new_from_decimal_keeps_the_number() {
    assert_eq!(Grade::new_from_decimal(0).get_grade(), 0);
    assert_eq!(Grade::new_from_decimal(113).get_grade(), 113);
    assert_eq!(Grade::new_from_decimal(242).get_grade(), 242);
}

#[test]
fn grades_compare_by_number() {
    assert_eq!(Grade::new_from_decimal(7), Grade::new_from_decimal(7));
    assert_ne!(Grade::new_from_decimal(7), Grade::new_from_decimal(8));
}

#[test]
fn new_from_ternary_reads_most_significant_digit_first() {
    assert_eq!(Grade::new_from_ternary("00000").unwrap().get_grade(), 0);
    assert_eq!(Grade::new_from_ternary("00001").unwrap().get_grade(), 1);
    assert_eq!(Grade::new_from_ternary("00010").unwrap().get_grade(), 3);
    assert_eq!(Grade::new_from_ternary("10000").unwrap().get_grade(), 81);
    assert_eq!(Grade::new_from_ternary("20000").unwrap().get_grade(), 162);
    assert_eq!(Grade::new_from_ternary("11012").unwrap().get_grade(), 113);
    assert_eq!(Grade::new_from_ternary("22222").unwrap().get_grade(), 242);
}

#[test]
fn new_from_ternary_rejects_wrong_lengths() {
    assert_eq!(Grade::new_from_ternary(""), Err(SolverError::LengthMismatch));
    assert_eq!(Grade::new_from_ternary("0120"), Err(SolverError::LengthMismatch));
    assert_eq!(Grade::new_from_ternary("012012"), Err(SolverError::LengthMismatch));
    assert_eq!(
        Grade::new_from_ternary("0000000000000000000000000000000000000000"),
        Err(SolverError::LengthMismatch)
    );
}

#[test]
fn new_from_ternary_rejects_other_characters() {
    assert_eq!(Grade::new_from_ternary("01230"), Err(SolverError::InvalidDigit));
    assert_eq!(Grade::new_from_ternary("0120x"), Err(SolverError::InvalidDigit));
    assert_eq!(Grade::new_from_ternary("9"), Err(SolverError::InvalidDigit));
    assert_eq!(Grade::new_from_ternary(" 0120"), Err(SolverError::InvalidDigit));
    assert_eq!(Grade::new_from_ternary("0120\u{1F7E9}"), Err(SolverError::InvalidDigit));
}

#[test]
fn invalid_digit_counts_before_wrong_length() {
    assert_eq!(Grade::new_from_ternary("3"), Err(SolverError::InvalidDigit));
    assert_eq!(Grade::new_from_ternary("0000000a"), Err(SolverError::InvalidDigit));
    assert_eq!(Grade::new_from_ternary("000000000000000000000000000000000000000-"), Err(SolverError::InvalidDigit));
}

#[test]
fn decimal_to_ternary_always_has_five_characters() {
    assert_eq!(Grade::new_from_decimal(0).decimal_to_ternary(), "00000");
    assert_eq!(Grade::new_from_decimal(1).decimal_to_ternary(), "00001");
    assert_eq!(Grade::new_from_decimal(2).decimal_to_ternary(), "00002");
    assert_eq!(Grade::new_from_decimal(3).decimal_to_ternary(), "00010");
    assert_eq!(Grade::new_from_decimal(81).decimal_to_ternary(), "10000");
    assert_eq!(Grade::new_from_decimal(113).decimal_to_ternary(), "11012");
    assert_eq!(Grade::new_from_decimal(130).decimal_to_ternary(), "11211");
    assert_eq!(Grade::new_from_decimal(189).decimal_to_ternary(), "21000");
    assert_eq!(Grade::new_from_decimal(242).decimal_to_ternary(), "22222");
    for n in 0..GRADE_COUNT {
        assert_eq!(Grade::new_from_decimal(n).decimal_to_ternary().chars().count(), WORD_LENGTH);
    }
}

#[test]
fn ternary_round_trip_for_every_grade() {
    for n in 0..GRADE_COUNT {
        let text = Grade::new_from_decimal(n).decimal_to_ternary();
        let back = Grade::new_from_ternary(&text).unwrap();
        assert_eq!(back.get_grade(), n);
        assert_eq!(back, Grade::new_from_decimal(n));
    }
}

#[test]
fn ternary_text_round_trip() {
    for text in ["00000", "01201", "11012", "20202", "22222"] {
        assert_eq!(Grade::new_from_ternary(text).unwrap().decimal_to_ternary(), text);
    }
}

#[test]
fn get_color_boxes_shows_one_square_for_each_letter() {
    assert_eq!(Grade::new_from_decimal(0).get_color_boxes(), "⬛⬛⬛⬛⬛");
    assert_eq!(Grade::new_from_decimal(242).get_color_boxes(), "🟩🟩🟩🟩🟩");
    assert_eq!(Grade::new_from_decimal(121).get_color_boxes(), "🟨🟨🟨🟨🟨");
    assert_eq!(Grade::new_from_decimal(113).get_color_boxes(), "🟨🟨⬛🟨🟩");
    assert_eq!(Grade::new_from_decimal(1).get_color_boxes(), "⬛⬛⬛⬛🟨");
    assert_eq!(Grade::new_from_decimal(162).get_color_boxes(), "🟩⬛⬛⬛⬛");
}

#[test]
fn color_boxes_follow_the_order_of_the_ternary_text() {
    for n in 0..GRADE_COUNT {
        let grade = Grade::new_from_decimal(n);
        let text: Vec<char> = grade.decimal_to_ternary().chars().collect();
        let boxes: Vec<char> = grade.get_color_boxes().chars().collect();
        assert_eq!(text.len(), boxes.len());
        for i in 0..text.len() {
            let expected = match text[i] {
                '0' => '⬛',
                '1' => '🟨',
                _ => '🟩',
            };
            assert_eq!(boxes[i], expected);
        }
    }
}

#[test]
fn grade_is_copied_and_printed_for_debugging() {
    let grade = Grade::new_from_decimal(42);
    let copy = grade;
    assert_eq!(grade, copy);
    assert_eq!(grade.clone().get_grade(), 42);
    assert!(format!("{:?}", grade).contains("42"));
}
