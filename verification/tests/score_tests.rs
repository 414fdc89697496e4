use selecta::score::score;

/// The score as a floating-point value, for comparing against the exact
/// fractions the scorer returns.
fn value(choice: &str, query: &str) -> f64 {
    let s = score(choice, query);
    s.num as f64 / s.den as f64
}

#[test]
fn test_scores_zero_when_choice_is_empty() {
    assert!(value("", "a") == 0.0);
}

#[test]
fn test_scores_one_when_query_is_empty() {
    assert!(value("a", "") == 1.0);
}

#[test]
fn test_scores_zero_when_the_query_longer_than_choice() {
    assert!(value("short", "longer") == 0.0);
}

#[test]
fn test_scores_zero_when_query_does_not_match_at_all() {
    assert!(value("a", "b") == 0.0);
}

#[test]
fn test_scores_zero_when_only_prefix_of_query_matches() {
    assert!(value("ab", "ac") == 0.0);
}

#[test]
fn test_scores_greater_than_zero_when_matches() {
    let given_choices: Vec<&str> = vec!["a", "ab", "ba", "bab"];

    for choice in given_choices.iter() {
        assert!(value(*choice, "a") > 0.0);
    }

    assert!(value("babababab", "aaaa") > 0.0);
}

#[test]
fn test_scores_1_normalized_to_length_when_the_query_equals_choice() {
    assert!(value("a", "a") == 1.0);
    assert!(value("ab", "ab") == 0.5);
    assert!(value("a long string", "a long string") == 1.0 / "a long string".len() as f64);
    assert!(value("spec/search_spec.rb", "sear") == 1.0 / "spec/search_spec.rb".len() as f64);
}

#[test]
fn test_matches_punctuation() {
    assert!(value("/! symbols $^", "/!$^") > 0.0);
}

#[test]
fn test_is_case_insensitive() {
    assert!(value("a", "A") == 1.0);
    assert!(value("A", "a") == 1.0);
}

#[test]
fn test_does_not_match_when_same_letter_is_repeated_in_choice() {
    assert!(value("a", "aa") == 0.0);
}

#[test]
fn test_scores_higher_for_better_matches() {
    assert!(value("selecta.gemspec", "asp") > value("algorithm4_spec.rb", "asp"));
    assert!(value("README.md", "em") > value("benchmark.rb", "em"));
    assert!(value("search.rb", "sear") > value("spec/search_spec.rb", "sear"));
}

#[test]
fn test_scores_shorter_matches_higher() {
    assert!(value("fbb", "fbb") > value("foo bar baz", "fbb"));
    assert!(value("foo", "foo") > value("longer foo", "foo"));
    assert!(value("foo", "foo") > value("foo longer", "foo"));
    assert!(value("1/2/3/4", "1/2/3") > value("1/9/2/3/4", "1/2/3"));
}

#[test]
fn test_sometimes_score_longer_strings_higher_if_better_match() {
    assert!(value("long 12 long", "12") > value("1 long 2", "12"));
}

#[test]
fn test_scores_higher_of_two_matches_regardless_of_order() {
    let tight = "12";
    let loose = "1padding2";
    let expect1 = tight.to_string() + loose;
    let expect2 = loose.to_string() + tight;

    assert!(value(expect1.as_str(), "12") == 1.0 / expect1.len() as f64);
    assert!(value(expect2.as_str(), "12") == 1.0 / expect2.len() as f64);
}

#[test]
fn test_score_is_an_exact_fraction_of_window_and_length() {
    // "selecta.gemspec" against "asp": the tightest window runs from the
    // "a" at index 6 through "sp" at indexes 11 and 12, so 7 characters,
    // in a 15-character candidate.
    let s = score("selecta.gemspec", "asp");
    assert_eq!(s.num, 3);
    assert_eq!(s.den, 7 * 15);
}

#[test]
fn test_exact_match_scores_inverse_of_length() {
    let s = score("abcd", "abcd");
    assert_eq!(s.num, 4);
    assert_eq!(s.den, 16);
    assert!(value("abcd", "abcd") == 0.25);
}

#[test]
fn test_case_folding_applies_to_both_sides() {
    assert!(value("AbCd", "aBcD") == 0.25);
    assert!(value("MIXED case", "mixed CASE") == 1.0 / 10.0);
}

#[test]
fn test_empty_query_beats_empty_choice() {
    // The empty query matches even the empty candidate, with full score.
    assert!(value("", "") == 1.0);
}

#[test]
fn test_window_chooses_best_occurrence() {
    // "long 12 long": the "12" sits adjacent, window 2 of 12 characters.
    let s = score("long 12 long", "12");
    assert_eq!(s.num, 2);
    assert_eq!(s.den, 2 * 12);
}
