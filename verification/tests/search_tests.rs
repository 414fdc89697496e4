use selecta::config::Configuration;
use selecta::search::Search;

fn get_test_config() -> Configuration {
    let choices: Vec<String> =
        vec![String::from("one"), String::from("two"), String::from("three")];

    Configuration::from_inputs(choices, 21)
}

fn get_blank_search() -> Search {
    let config = get_test_config();
    Search::blank(config)
}

#[test]
fn test_blank_search() {
    let _search = get_blank_search();
}

#[test]
fn test_selects_first_choice() {
    let search = get_blank_search();
    assert!(search.selection().unwrap().as_str() == "one");
}

#[test]
fn test_moves_down_list() {
    let search = get_blank_search();
    assert!(search.down().selection().unwrap().as_str() == "two");
}

#[test]
fn test_moves_up() {
    let search = get_blank_search();
    assert!(search.down().up().selection().unwrap().as_str() == "one");
}

#[test]
fn test_loops_around_when_reaching_end_of_the_list() {
    let search = get_blank_search();
    assert!(search.down().down().down().down().selection().unwrap().as_str() == "two");
}

#[test]
fn test_loops_around_when_reaching_top_of_the_list() {
    let search = get_blank_search();
    assert!(search.up().up().selection().unwrap().as_str() == "two");
}

#[test]
fn test_loops_around_when_reaching_visible_choice_limit() {
    let choices: Vec<String> =
        vec![String::from("one"), String::from("two"), String::from("three")];

    let config = Configuration::new(2, "".to_string(), choices);
    let search = Search::blank(config);
    assert!(search.down().down().down().selection().unwrap().as_str() == "two");
}

#[test]
fn test_filtered_search_results_moves_up_down_list() {
    let search = get_blank_search().append_search_string("t");
    assert!(search.down().selection().unwrap().as_str() == "three");

    let search = get_blank_search().append_search_string("t");
    assert!(search.up().selection().unwrap().as_str() == "three");
}

#[test]
fn test_filtered_search_results_loops_around_when_reaching_the_end() {
    let search = get_blank_search().append_search_string("t");
    assert!(search.down().down().selection().unwrap().as_str() == "two");

    let search = get_blank_search().append_search_string("t");
    assert!(search.up().selection().unwrap().as_str() == "three");
}

#[test]
fn test_everything_filtered_out_cannot_move_up_or_down() {
    let search = get_blank_search().append_search_string("zzz");
    assert!(search.down().selection().is_none());

    let search = get_blank_search().append_search_string("zzz");
    assert!(search.up().selection().is_none());
}

#[test]
fn test_nothing_matches() {
    let search = get_blank_search().append_search_string("doesnt-mtch");
    assert!(search.selection().is_none());
}

#[test]
fn test_backspaces_over_characters_and_resets_index() {
    let mut search = get_blank_search();
    search = search.append_search_string("e");

    assert!(search.get_query().as_str() == "e");
    assert!(search.backspace().get_query().as_str() == "");
    assert!(search.get_index() == 0);
}

#[test]
fn test_deletes_words() {
    assert!(get_blank_search().append_search_string("").delete_word().get_query().as_str() == "");
    assert!(get_blank_search().append_search_string("a").delete_word().get_query().as_str() == "");
    assert!(get_blank_search().append_search_string("a ").delete_word().get_query().as_str() == "");
    assert!(
        get_blank_search().append_search_string("a b").delete_word().get_query().as_str() == "a "
    );
    assert!(
        get_blank_search().append_search_string("a b ").delete_word().get_query().as_str() == "a "
    );
    assert!(
        get_blank_search().append_search_string(" a b").delete_word().get_query().as_str() == " a "
    );
}

#[test]
fn test_clears_query() {
    let given_queries = ["", "a", "a ", "a b", "a b ", " a b"];

    for query in given_queries.iter() {
        let mut search = get_blank_search().append_search_string(*query);
        assert!(search.clear_query().get_query().as_str() == "");
    }
}

#[test]
fn test_only_returns_matching_choices() {
    let search = get_blank_search().append_search_string("t");
    assert_eq!(search.matches, vec![String::from("two"), String::from("three")]);
}

#[test]
fn test_sorts_the_choices_by_score() {
    // "search.rb" scores higher than "spec/search_spec.rb" for "sear"
    // (same window, shorter candidate), so the ranking reverses the
    // input order.
    let choices: Vec<String> =
        vec![String::from("spec/search_spec.rb"), String::from("search.rb")];
    let config = Configuration::new(20, String::new(), choices);
    let search = Search::blank(config).append_search_string("sear");
    assert_eq!(search.matches, vec![String::from("search.rb"), String::from("spec/search_spec.rb")]);
}

#[test]
fn test_knows_when_done() {
    let mut search = get_blank_search();
    assert!(search.is_done() == false);
    assert!(search.done().is_done() == true);
}

#[test]
fn test_done_is_idempotent_and_permanent() {
    let mut search = get_blank_search();
    search.done();
    assert!(search.is_done());
    search.done();
    assert!(search.is_done());

    // No other operation clears the flag again.
    let mut search = search.append_search_string("t").down().up();
    assert!(search.is_done());
    search.backspace();
    assert!(search.is_done());
    search.delete_word();
    assert!(search.is_done());
    search.clear_query();
    assert!(search.is_done());
}

#[test]
fn test_new_takes_a_precomputed_match_list_or_derives_one() {
    let choices: Vec<String> = vec![String::from("one"), String::from("two")];

    let config = Configuration::new(20, String::new(), choices.clone());
    let given = vec![String::from("alpha"), String::from("beta")];
    let search = Search::new(config, choices.clone(), 1, String::from("t"), false, Some(given));
    assert!(search.selection().unwrap().as_str() == "beta");

    let config = Configuration::new(20, String::new(), choices.clone());
    let search = Search::new(config, choices, 0, String::from("t"), false, None);
    assert_eq!(search.matches, vec![String::from("two")]);
}

#[test]
fn test_empty_candidate_list_has_no_selection() {
    let config = Configuration::new(20, String::new(), Vec::new());
    let search = Search::blank(config);
    assert!(search.selection().is_none());
    assert!(search.down().up().selection().is_none());
}

#[test]
fn test_ties_keep_original_candidate_order() {
    // "one" and "two" both score 1/3 for "o"; "three" has no "o" at all.
    let search = get_blank_search().append_search_string("o");
    assert_eq!(search.matches, vec![String::from("one"), String::from("two")]);
}

#[test]
fn test_delete_word_on_spaces_only_query() {
    let mut search = get_blank_search().append_search_string("   ");
    assert!(search.delete_word().get_query().as_str() == "");
}

#[test]
fn test_blank_session_starts_from_initial_query() {
    let choices: Vec<String> = vec![String::from("alpha"), String::from("beta")];
    let config = Configuration::new(20, String::from("bet"), choices);
    let search = Search::blank(config);
    assert!(search.get_query().as_str() == "bet");
    assert_eq!(search.matches, vec![String::from("beta")]);
    assert!(search.get_index() == 0);
}

#[test]
fn test_from_inputs_caps_visible_rows_at_twenty() {
    let config = Configuration::from_inputs(Vec::new(), 500);
    assert_eq!(config.get_visible_choices(), 20);

    let config = Configuration::from_inputs(Vec::new(), 5);
    assert_eq!(config.get_visible_choices(), 5);
}

#[test]
fn test_configuration_accessors_return_what_was_given() {
    let choices: Vec<String> = vec![String::from("one")];
    let config = Configuration::new(7, String::from("qu"), choices);
    assert_eq!(config.get_visible_choices(), 7);
    assert_eq!(config.get_initial_search(), String::from("qu"));
    assert_eq!(config.get_choices(), vec![String::from("one")]);
}
