use wordle_solver::error::SolverError;
use wordle_solver::grade::Grade;
use wordle_solver::group::{AllGroups, AverageLength, Group};
use wordle_solver::word::{AllWords, Word};
use wordle_solver::wordle::AllWordles;

fn word(text: &str) -> Word {
    Word::new(text.to_string())
}

fn pool(texts: &[&str]) -> AllWords {
    AllWords::new_from_vec(texts.iter().map(|t| word(t)).collect())
}

fn texts(words: &AllWords) -> Vec<String> {
    (0..words.get_length()).map(|i| words.get(i).as_str().to_string()).collect()
}

fn grouped(answers: &[&str], guess: &str) -> AllGroups {
    pool(answers).grade_all(&word(guess)).unwrap().group_by_grade().unwrap()
}

#[test]
fn empty_pool_has_no_grouping() {
    let graded = AllWordles::new_from_vec(Vec::new());
    assert_eq!(graded.get_length(), 0);
    assert_eq!(graded.group_by_grade().err(), Some(SolverError::EmptyPool));
    let graded = pool(&[]).grade_all(&word("abcde")).unwrap();
    assert_eq!(graded.group_by_grade().err(), Some(SolverError::EmptyPool));
}

#[test]
fn buckets_come_in_order_of_first_occurrence() {
    // Against "aaaaa": "bbbbb" and "ccccc" are all absent, "aaaaa" all exact,
    // "abbbb" and "acccc" have the first letter exact.
    let groups = grouped(&["bbbbb", "abbbb", "aaaaa", "ccccc", "acccc"], "aaaaa");
    assert_eq!(groups.get_length(), 3);
    assert_eq!(groups.get(0).get_grade().decimal_to_ternary(), "00000");
    assert_eq!(texts(groups.get(0).get_words()), ["bbbbb", "ccccc"]);
    assert_eq!(groups.get(1).get_grade().decimal_to_ternary(), "20000");
    assert_eq!(texts(groups.get(1).get_words()), ["abbbb", "acccc"]);
    assert_eq!(groups.get(2).get_grade().decimal_to_ternary(), "22222");
    assert_eq!(texts(groups.get(2).get_words()), ["aaaaa"]);
}

#[test]
fn buckets_are_not_sorted_by_grade() {
    let groups = grouped(&["aaaaa", "bbbbb"], "aaaaa");
    assert_eq!(groups.get_length(), 2);
    assert_eq!(groups.get(0).get_grade().get_grade(), 242);
    assert_eq!(groups.get(1).get_grade().get_grade(), 0);
}

#[test]
fn buckets_keep_repeated_words() {
    let groups = grouped(&["bbbbb", "aaaaa", "bbbbb", "bbbbb"], "aaaaa");
    assert_eq!(groups.get_length(), 2);
    assert_eq!(texts(groups.get(0).get_words()), ["bbbbb", "bbbbb", "bbbbb"]);
    assert_eq!(texts(groups.get(1).get_words()), ["aaaaa"]);
}

#[test]
fn partition_is_exhaustive_and_disjoint() {
    let answers = [
        "crane", "slate", "trace", "crate", "react", "caret", "carte", "moist", "pound", "crane",
        "eagle", "allee", "abbey", "speed", "erase",
    ];
    for guess in ["crane", "slate", "eagle", "zzzzz", "aaaaa"] {
        let groups = grouped(&answers, guess);
        let mut seen: Vec<String> = Vec::new();
        let mut grades: Vec<u32> = Vec::new();
        for i in 0..groups.get_length() {
            let group = groups.get(i);
            assert!(group.get_length() > 0);
            assert_eq!(group.get_length(), group.get_words().get_length());
            assert!(!grades.contains(&group.get_grade().get_grade()));
            grades.push(group.get_grade().get_grade());
            for text in texts(group.get_words()) {
                let grade = word(&text).get_grade(&word(guess)).unwrap();
                assert_eq!(grade, *group.get_grade());
                seen.push(text);
            }
        }
        let mut expected: Vec<String> = answers.iter().map(|t| t.to_string()).collect();
        expected.sort();
        seen.sort();
        assert_eq!(seen, expected);
    }
}

#[test]
fn end_to_end_scenario_groups() {
    let groups = grouped(&["abcde", "edcba", "aabbb"], "abcde");
    assert_eq!(groups.get_length(), 3);
    assert_eq!(groups.get(0).get_grade().get_grade(), 242);
    assert_eq!(groups.get(1).get_grade().get_grade(), 130);
    assert_eq!(groups.get(2).get_grade().get_grade(), 189);
    let mean = groups.get_average_length();
    assert_eq!(mean, AverageLength { total: 3, groups: 3 });
}

#[test]
fn group_new_and_accessors() {
    let group = Group::new(Grade::new_from_decimal(17), pool(&["abcde", "edcba"]));
    assert_eq!(group.get_grade().get_grade(), 17);
    assert_eq!(group.get_length(), 2);
    assert_eq!(texts(group.get_words()), ["abcde", "edcba"]);
    assert!(group.has_grade(Grade::new_from_decimal(17)));
    assert!(!group.has_grade(Grade::new_from_decimal(18)));
}

#[test]
fn group_push_word_appends() {
    let mut group = Group::new(Grade::new_from_decimal(0), AllWords::new(word("abcde")));
    group.push_word(word("edcba"));
    group.push_word(word("aabbb"));
    assert_eq!(group.get_length(), 3);
    assert_eq!(group.get_grade().get_grade(), 0);
    assert_eq!(texts(group.get_words()), ["abcde", "edcba", "aabbb"]);
}

#[test]
fn group_clone_is_equal() {
    let group = Group::new(Grade::new_from_decimal(5), pool(&["abcde", "edcba"]));
    let copy = group.clone();
    assert_eq!(copy.get_grade(), group.get_grade());
    assert_eq!(texts(copy.get_words()), texts(group.get_words()));
}

#[test]
fn all_groups_new_keeps_the_groups() {
    let groups = AllGroups::new(vec![
        Group::new(Grade::new_from_decimal(3), pool(&["abcde"])),
        Group::new(Grade::new_from_decimal(1), pool(&["edcba", "aabbb"])),
    ]);
    assert_eq!(groups.get_length(), 2);
    assert_eq!(groups.get(0).get_grade().get_grade(), 3);
    assert_eq!(groups.get(1).get_grade().get_grade(), 1);
    assert_eq!(groups.get(1).get_length(), 2);
    assert_eq!(AllGroups::new(Vec::new()).get_length(), 0);
    let copy = groups.clone();
    assert_eq!(copy.get_length(), 2);
    assert_eq!(copy.get(1).get_grade().get_grade(), 1);
}

#[test]
fn average_length_is_words_over_groups() {
    let groups = grouped(&["bbbbb", "abbbb", "aaaaa", "ccccc", "acccc"], "aaaaa");
    assert_eq!(groups.get_average_length(), AverageLength { total: 5, groups: 3 });
    let groups = grouped(&["bbbbb", "ccccc", "ddddd", "eeeee"], "aaaaa");
    assert_eq!(groups.get_average_length(), AverageLength { total: 4, groups: 1 });
    let none = AllGroups::new(Vec::new());
    assert_eq!(none.get_average_length(), AverageLength { total: 0, groups: 0 });
    let odd = AllGroups::new(vec![
        Group::new(Grade::new_from_decimal(3), pool(&[])),
        Group::new(Grade::new_from_decimal(3), pool(&["edcba", "aabbb"])),
    ]);
    assert_eq!(odd.get_average_length(), AverageLength { total: 2, groups: 2 });
}

#[test]
fn average_lengths_compare_as_fractions() {
    let half = AverageLength { total: 1, groups: 2 };
    let two_thirds = AverageLength { total: 2, groups: 3 };
    let four_sixths = AverageLength { total: 4, groups: 6 };
    let three = AverageLength { total: 3, groups: 1 };
    assert!(half.is_below(&two_thirds));
    assert!(!two_thirds.is_below(&half));
    assert!(!two_thirds.is_below(&four_sixths));
    assert!(!four_sixths.is_below(&two_thirds));
    assert!(two_thirds.is_below(&three));
    assert!(!three.is_below(&three));
    // 7/3 and 9/4 both truncate to 2; 9/4 is the smaller.
    let seven_thirds = AverageLength { total: 7, groups: 3 };
    let nine_fourths = AverageLength { total: 9, groups: 4 };
    assert!(nine_fourths.is_below(&seven_thirds));
    assert!(!seven_thirds.is_below(&nine_fourths));
    let huge = AverageLength { total: usize::MAX, groups: 1 };
    let huge_too = AverageLength { total: usize::MAX, groups: usize::MAX };
    assert!(huge_too.is_below(&huge));
    assert!(!huge.is_below(&huge_too));
}

#[test]
fn longest_group_has_the_most_words() {
    let groups = grouped(&["bbbbb", "abbbb", "aaaaa", "ccccc", "acccc", "ddddd"], "aaaaa");
    let longest = groups.get_longest_group();
    assert_eq!(longest.get_length(), 3);
    assert_eq!(longest.get_grade().get_grade(), 0);
    assert_eq!(texts(longest.get_words()), ["bbbbb", "ccccc", "ddddd"]);
    let single = grouped(&["abcde"], "abcde");
    assert_eq!(single.get_longest_group().get_grade().get_grade(), 242);
}

#[test]
fn longest_group_among_equals_is_one_of_them() {
    let groups = grouped(&["bbbbb", "aaaaa"], "aaaaa");
    let longest = groups.get_longest_group();
    assert_eq!(longest.get_length(), 1);
    let grade = longest.get_grade().get_grade();
    assert!(grade == 0 || grade == 242);
}

#[test]
fn group_from_grade_finds_the_bucket() {
    let groups = grouped(&["bbbbb", "abbbb", "aaaaa", "ccccc", "acccc"], "aaaaa");
    let found = groups.get_group_from_grade(Grade::new_from_ternary("20000").unwrap());
    assert_eq!(texts(found.get_words()), ["abbbb", "acccc"]);
    let found = groups.find_group_from_grade(Grade::new_from_decimal(0)).unwrap();
    assert_eq!(texts(found.get_words()), ["bbbbb", "ccccc"]);
    let found = groups.find_group_from_grade(Grade::new_from_decimal(242)).unwrap();
    assert_eq!(texts(found.get_words()), ["aaaaa"]);
    assert!(groups.find_group_from_grade(Grade::new_from_decimal(1)).is_none());
    assert!(groups.find_group_from_grade(Grade::new_from_decimal(241)).is_none());
    assert!(AllGroups::new(Vec::new()).find_group_from_grade(Grade::new_from_decimal(0)).is_none());
}

#[test]
fn group_from_grade_takes_the_first_of_several() {
    let groups = AllGroups::new(vec![
        Group::new(Grade::new_from_decimal(3), pool(&["abcde"])),
        Group::new(Grade::new_from_decimal(7), pool(&["first"])),
        Group::new(Grade::new_from_decimal(7), pool(&["later"])),
    ]);
    let found = groups.get_group_from_grade(Grade::new_from_decimal(7));
    assert_eq!(texts(found.get_words()), ["first"]);
}

#[test]
fn narrowing_to_the_observed_grade() {
    let answers = ["crane", "slate", "trace", "crate", "react", "caret", "carte", "moist"];
    let groups = grouped(&answers, "crate");
    // The answer is "trace": the clue for "crate" is observed and read from its text.
    let observed = word("trace").get_grade(&word("crate")).unwrap().decimal_to_ternary();
    let grade = Grade::new_from_ternary(&observed).unwrap();
    let left = groups.get_group_from_grade(grade).get_words().clone();
    assert!(texts(&left).contains(&"trace".to_string()));
    for text in texts(&left) {
        assert_eq!(word(&text).get_grade(&word("crate")).unwrap(), grade);
    }
}
