use wordle_solver::error::SolverError;
use wordle_solver::selection::{GuessPolicy, DEFAULT_THRESHOLD};
use wordle_solver::word::{AllWords, Word};

fn word(text: &str) -> Word {
    Word::new(text.to_string())
}

fn pool(texts: &[&str]) -> AllWords {
    AllWords::new_from_vec(texts.iter().map(|t| word(t)).collect())
}

fn many(count: usize) -> AllWords {
    // Distinct five-letter words out of the letters a to e.
    let letters = ['a', 'b', 'c', 'd', 'e'];
    let mut words = Vec::new();
    for n in 0..count {
        let mut text = String::new();
        let mut rest = n;
        for _ in 0..5 {
            text.push(letters[rest % 5]);
            rest /= 5;
        }
        words.push(Word::new(text));
    }
    AllWords::new_from_vec(words)
}

#[test]
fn best_guess_makes_the_most_buckets() {
    // "aaaaa" parts the pool in two buckets, "abcde" in three.
    let target = pool(&["aaaaa", "bbbbb", "ccccc"]);
    let best = AllWords::best_guess(&pool(&["aaaaa", "abcde"]), &target).unwrap();
    assert_eq!(best.as_str(), "abcde");
    let best = AllWords::best_guess(&pool(&["abcde", "aaaaa"]), &target).unwrap();
    assert_eq!(best.as_str(), "abcde");
}

#[test]
fn best_guess_breaks_ties_by_first_occurrence() {
    let target = pool(&["aaaaa", "bbbbb", "ccccc"]);
    let best = AllWords::best_guess(&pool(&["bbbbb", "aaaaa", "ccccc"]), &target).unwrap();
    assert_eq!(best.as_str(), "bbbbb");
    let best = AllWords::best_guess(&pool(&["zzzzz", "ccccc", "aaaaa"]), &target).unwrap();
    assert_eq!(best.as_str(), "ccccc");
    let best = AllWords::best_guess(&pool(&["zzzzz", "yyyyy"]), &target).unwrap();
    assert_eq!(best.as_str(), "zzzzz");
}

#[test]
fn best_guess_compares_means_exactly() {
    // Seven answers: "ab..." twice, "ba..." twice, three others.
    // A guess with 3 buckets (mean 7/3) and one with 4 buckets (mean 7/4) both have
    // a mean that truncates to 2 or 1; the exact comparison prefers 4 buckets.
    let target = pool(&["aaaaa", "aaaab", "bbbbb", "bbbba", "ccccc", "ddddd", "eeeee"]);
    let three = "aaaaa"; // buckets: 22222, 22220, 00002 (bbbba), 00000 -> four grades
    let guess_pool = pool(&["zzzzz", three, "abcde"]);
    let best = AllWords::best_guess(&guess_pool, &target).unwrap();
    let mut most = 0;
    let mut expected = String::new();
    for i in 0..guess_pool.get_length() {
        let groups = target.grade_all(guess_pool.get(i)).unwrap().group_by_grade().unwrap();
        if groups.get_length() > most {
            most = groups.get_length();
            expected = guess_pool.get(i).as_str().to_string();
        }
    }
    assert_eq!(best.as_str(), expected);
}

#[test]
fn best_guess_has_the_smallest_mean_of_all_candidates() {
    let answers = pool(&[
        "crane", "slate", "trace", "crate", "react", "caret", "carte", "moist", "pound", "eagle",
        "allee", "abbey", "speed", "erase",
    ]);
    let best = answers.get_best_guess().unwrap();
    let best_mean =
        answers.grade_all(&best).unwrap().group_by_grade().unwrap().get_average_length();
    let mut first = None;
    for i in 0..answers.get_length() {
        let mean = answers
            .grade_all(answers.get(i))
            .unwrap()
            .group_by_grade()
            .unwrap()
            .get_average_length();
        assert!(!mean.is_below(&best_mean));
        if first.is_none() && !best_mean.is_below(&mean) {
            first = Some(i);
        }
    }
    assert!(*answers.get(first.unwrap()) == best);
}

#[test]
fn best_guess_is_repeatable() {
    let answers = pool(&["crane", "slate", "trace", "crate", "react", "caret", "carte", "moist"]);
    let first = answers.get_best_guess().unwrap();
    for _ in 0..20 {
        let again = answers.get_best_guess().unwrap();
        assert!(again == first);
        let again = AllWords::best_guess(&answers.clone(), &answers.clone()).unwrap();
        assert!(again == first);
    }
}

#[test]
fn best_guess_of_one_word_is_that_word() {
    let answers = pool(&["crane"]);
    assert_eq!(answers.get_best_guess().unwrap().as_str(), "crane");
    assert_eq!(AllWords::best_guess(&pool(&["slate"]), &answers).unwrap().as_str(), "slate");
}

#[test]
fn get_best_guess_tries_the_pool_against_itself() {
    let answers = pool(&["aaaaa", "bbbbb", "ccccc", "abcde"]);
    // "abcde" tells the four words apart, the others do not.
    assert_eq!(answers.get_best_guess().unwrap().as_str(), "abcde");
}

#[test]
fn empty_pools_are_rejected() {
    let none = pool(&[]);
    let some = pool(&["crane"]);
    assert_eq!(AllWords::best_guess(&none, &some).err(), Some(SolverError::EmptyPool));
    assert_eq!(AllWords::best_guess(&some, &none).err(), Some(SolverError::EmptyPool));
    assert_eq!(AllWords::best_guess(&none, &none).err(), Some(SolverError::EmptyPool));
    assert_eq!(none.get_best_guess().err(), Some(SolverError::EmptyPool));
}

#[test]
fn wrong_lengths_are_rejected() {
    let good = pool(&["crane", "slate"]);
    let bad = pool(&["crane", "slat"]);
    assert_eq!(AllWords::best_guess(&bad, &good).err(), Some(SolverError::LengthMismatch));
    assert_eq!(AllWords::best_guess(&good, &bad).err(), Some(SolverError::LengthMismatch));
    assert_eq!(bad.get_best_guess().err(), Some(SolverError::LengthMismatch));
}

#[test]
fn empty_pool_counts_before_wrong_length() {
    let none = pool(&[]);
    let bad = pool(&["crane", "slat"]);
    assert_eq!(AllWords::best_guess(&none, &bad).err(), Some(SolverError::EmptyPool));
    assert_eq!(AllWords::best_guess(&bad, &none).err(), Some(SolverError::EmptyPool));
}

#[test]
fn default_policy_has_the_usual_threshold() {
    assert_eq!(DEFAULT_THRESHOLD, 50);
    assert_eq!(GuessPolicy::default().threshold, 50);
    assert_eq!(GuessPolicy::default(), GuessPolicy::new(50));
    assert_eq!(GuessPolicy::new(7).threshold, 7);
}

#[test]
fn below_the_threshold_only_possible_answers_are_guessed() {
    let dictionary = pool(&["abcde", "aaaaa", "bbbbb", "ccccc"]);
    let remaining = pool(&["aaaaa", "bbbbb", "ccccc"]);
    // "abcde" would part the three answers best, but it is no possible answer.
    let guess = GuessPolicy::default().choose_guess(&dictionary, &remaining).unwrap();
    assert_eq!(guess.as_str(), "aaaaa");
    let guess = GuessPolicy::new(4).choose_guess(&dictionary, &remaining).unwrap();
    assert_eq!(guess.as_str(), "aaaaa");
}

#[test]
fn from_the_threshold_on_the_dictionary_is_guessed() {
    let dictionary = pool(&["abcde", "aaaaa", "bbbbb", "ccccc"]);
    let remaining = pool(&["aaaaa", "bbbbb", "ccccc"]);
    let guess = GuessPolicy::new(3).choose_guess(&dictionary, &remaining).unwrap();
    assert_eq!(guess.as_str(), "abcde");
    let guess = GuessPolicy::new(0).choose_guess(&dictionary, &remaining).unwrap();
    assert_eq!(guess.as_str(), "abcde");
}

#[test]
fn threshold_scenario_with_the_default_policy() {
    let dictionary = many(60);
    let policy = GuessPolicy::default();
    // 49 possible answers: below the threshold, the guess is one of them.
    let few = many(49);
    let guess = policy.choose_guess(&pool(&["zzzzz"]), &few).unwrap();
    assert!((0..few.get_length()).any(|i| *few.get(i) == guess));
    // 50 possible answers: the dictionary is tried, whatever it holds.
    let fifty = many(50);
    let guess = policy.choose_guess(&pool(&["zzzzz"]), &fifty).unwrap();
    assert_eq!(guess.as_str(), "zzzzz");
    let guess = policy.choose_guess(&dictionary, &fifty).unwrap();
    assert!((0..dictionary.get_length()).any(|i| *dictionary.get(i) == guess));
}

#[test]
fn policy_passes_errors_on() {
    let policy = GuessPolicy::new(2);
    let dictionary = pool(&["abcde"]);
    assert_eq!(policy.choose_guess(&dictionary, &pool(&[])).err(), Some(SolverError::EmptyPool));
    assert_eq!(
        policy.choose_guess(&pool(&[]), &pool(&["aaaaa", "bbbbb"])).err(),
        Some(SolverError::EmptyPool)
    );
    assert_eq!(
        policy.choose_guess(&dictionary, &pool(&["aaaa"])).err(),
        Some(SolverError::LengthMismatch)
    );
    assert_eq!(
        policy.choose_guess(&pool(&["abcdef"]), &pool(&["aaaaa", "bbbbb"])).err(),
        Some(SolverError::LengthMismatch)
    );
}
