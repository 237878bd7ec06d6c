use phrase_rules::assemble::spread_phrase;
use phrase_rules::deduce::{deduce_pair_rule, deduce_rule, Deduced};
use phrase_rules::phrase::{match_phrase, Phrase, Ready, Rule, RuleBook, Template, Voca};

fn slot(n: usize, p: &str) -> Phrase<'static> {
    Template((n, p.to_string()))
}

fn sentence_pair() -> (Rule<'static>, Rule<'static>) {
    (
        vec![slot(0, "n"), Voca("eat"), slot(1, "n")],
        vec![slot(0, "n"), slot(1, "n"), Voca("먹다")],
    )
}

fn source_dictionary() -> Vec<(&'static str, &'static str)> {
    vec![("I", "n"), ("eat", "v"), ("red", "a"), ("apple", "n")]
}

#[test]
fn match_reads_sentence_by_rule() {
    let pair = sentence_pair();
    let rules: RuleBook = vec![("S".to_string(), vec![&pair])];
    let dict = source_dictionary();
    let words = vec!["I", "eat", "apple"];
    let (n, reading) = match_phrase(&words, "S", &rules, &dict).unwrap();
    assert_eq!(n, 3);
    match &reading {
        Ready::Template((p, params)) => {
            assert!(**p == pair);
            assert_eq!(params.len(), 2);
            assert_eq!(params[0].0, 0);
            assert!(matches!(params[0].1, Ready::Voca("I")));
            assert_eq!(params[1].0, 1);
            assert!(matches!(params[1].1, Ready::Voca("apple")));
        },
        Ready::Voca(_) => panic!("expected a rule reading"),
    }
    assert_eq!(reading.render(), " (n.I) eat (n.apple)");
}

#[test]
fn match_single_word_of_unknown_part_is_noun() {
    let rules: RuleBook = Vec::new();
    let dict = source_dictionary();
    let words = vec!["pear", "eat"];
    let (n, reading) = match_phrase(&words, "n", &rules, &dict).unwrap();
    assert_eq!(n, 1);
    assert!(matches!(reading, Ready::Voca("pear")));
    assert_eq!(reading.render(), "pear");
}

#[test]
fn match_single_word_of_other_part_fails() {
    let rules: RuleBook = Vec::new();
    let dict = source_dictionary();
    let words = vec!["eat"];
    assert!(match_phrase(&words, "n", &rules, &dict).is_err());
    assert!(match_phrase(&words, "a", &rules, &dict).is_err());
    let (n, reading) = match_phrase(&words, "v", &rules, &dict).unwrap();
    assert_eq!(n, 1);
    assert!(matches!(reading, Ready::Voca("eat")));
}

#[test]
fn match_fails_where_a_slot_fails() {
    let pair = sentence_pair();
    let rules: RuleBook = vec![("S".to_string(), vec![&pair])];
    let dict = source_dictionary();
    // "eat" is a verb, so the first slot (a noun) cannot read it
    let words = vec!["eat", "eat", "apple"];
    assert!(match_phrase(&words, "S", &rules, &dict).is_err());
}

#[test]
fn spread_turns_reading_into_target_rule() {
    let pair = sentence_pair();
    let rules: RuleBook = vec![("S".to_string(), vec![&pair])];
    let dict = source_dictionary();
    let words = vec!["I", "eat", "apple"];
    let (_, reading) = match_phrase(&words, "S", &rules, &dict).unwrap();
    let vocab: Vec<(&str, Vec<&str>)> = vec![
        ("I", vec!["나"]),
        ("apple", vec!["사과", "배"]),
        ("먹다", vec!["먹다"]),
    ];
    let (rule, open) = spread_phrase(&reading, &vocab, &dict, 0);
    assert!(rule == vec![Voca("나"), slot(0, "n"), Voca("먹다")]);
    assert_eq!(open, vec!["apple"]);
}

#[test]
fn spread_numbers_slots_from_given_start() {
    let dict = source_dictionary();
    let vocab: Vec<(&str, Vec<&str>)> = vec![("apple", vec!["사과", "배"]), ("pear", vec!["배", "사과"])];
    let (rule, open) = spread_phrase(&Ready::Voca("apple"), &vocab, &dict, 5);
    assert!(rule == vec![slot(5, "n")]);
    assert_eq!(open, vec!["apple"]);
    // a word the dictionary does not know is spread as a noun slot
    let (rule, open) = spread_phrase(&Ready::Voca("pear"), &vocab, &dict, 2);
    assert!(rule == vec![slot(2, "n")]);
    assert_eq!(open, vec!["pear"]);
}

#[test]
fn deduce_rule_for_unexplained_last_slot() {
    let pair = sentence_pair();
    let rules: RuleBook = vec![("S".to_string(), vec![&pair])];
    let dict = source_dictionary();
    let words = vec!["I", "eat", "red", "apple"];
    let (deduced, used) = deduce_rule(&words, "S", &rules, &dict).unwrap();
    assert!(*used == pair);
    assert_eq!(deduced.len(), 1);
    assert_eq!(deduced[0].0, 1);
    assert_eq!(deduced[0].1.0, "n");
    assert!(deduced[0].1.1.0 == vec![slot(0, "a"), slot(1, "n")]);
    assert!(deduced[0].1.1.1.is_empty());
}

#[test]
fn deduce_rule_fails_without_rules_of_part() {
    let pair = sentence_pair();
    let rules: RuleBook = vec![("S".to_string(), vec![&pair])];
    let dict = source_dictionary();
    let words = vec!["I", "eat", "apple"];
    assert!(deduce_rule(&words, "V", &rules, &dict).is_err());
    // every slot of the rule reads as it is: nothing to deduce
    assert!(deduce_rule(&words, "S", &rules, &dict).is_err());
}

#[test]
fn deduce_pair_rule_builds_target_rule() {
    let pair = sentence_pair();
    let rules: RuleBook = vec![("S".to_string(), vec![&pair])];
    let deduced: Deduced = vec![(1, ("n".to_string(), (vec![slot(0, "a"), slot(1, "n")], Vec::new())))];
    let target_dict: Vec<(&str, &str)> = vec![("나", "n"), ("빨간", "a"), ("사과", "n")];
    let words_t = vec!["나", "빨간", "사과", "먹다"];
    let out = deduce_pair_rule(&words_t, &pair, &deduced, &rules, &target_dict).unwrap();
    assert_eq!(out.len(), 1);
    assert_eq!(out[0].0, "n");
    assert!(*out[0].1.0 == vec![slot(0, "a"), slot(1, "n")]);
    assert!(out[0].1.1 == vec![slot(0, "n"), slot(0, "a"), slot(1, "n")]);
}

#[test]
fn deduce_pair_rule_fails_on_misplaced_word() {
    let pair = sentence_pair();
    let rules: RuleBook = vec![("S".to_string(), vec![&pair])];
    let deduced: Deduced = Vec::new();
    let target_dict: Vec<(&str, &str)> = vec![("나", "n"), ("사과", "n")];
    let words_t = vec!["나", "사과", "마시다"];
    assert!(deduce_pair_rule(&words_t, &pair, &deduced, &rules, &target_dict).is_err());
    // slots with nothing deduced take no words, so the rule's word must come first
    let words_t = vec!["먹다"];
    assert!(deduce_pair_rule(&words_t, &pair, &deduced, &rules, &target_dict).unwrap().is_empty());
}

#[test]
fn match_prefers_rule_reaching_largest_index() {
    let first: (Rule, Rule) = (vec![Voca("hi")], vec![Voca("안녕")]);
    let second: (Rule, Rule) = (vec![Voca("hi")], vec![Voca("안녕하세요")]);
    let rules: RuleBook = vec![("S".to_string(), vec![&first, &second])];
    let dict = source_dictionary();
    let words = vec!["hi"];
    // each rule's index starts at its position in the list
    let (n, reading) = match_phrase(&words, "S", &rules, &dict).unwrap();
    assert_eq!(n, 2);
    match reading {
        Ready::Template((p, params)) => {
            assert!(*p == second);
            assert!(params.is_empty());
        },
        Ready::Voca(_) => panic!("expected a rule reading"),
    }
}

#[test]
fn match_drops_rule_whose_word_differs() {
    let pair: (Rule, Rule) = (vec![Voca("hi")], vec![Voca("안녕")]);
    let rules: RuleBook = vec![("n".to_string(), vec![&pair])];
    let dict = source_dictionary();
    // the rule is dropped, so the first word is read alone as a noun
    let words = vec!["apple"];
    let (n, reading) = match_phrase(&words, "n", &rules, &dict).unwrap();
    assert_eq!(n, 1);
    assert!(matches!(reading, Ready::Voca("apple")));
}

#[test]
fn nested_reading_renders_and_clones() {
    let inner: (Rule, Rule) = (vec![Voca("red"), slot(0, "n")], vec![slot(0, "n")]);
    let params = vec![(0, Ready::Voca("apple"))];
    let np = Ready::Template((&inner, params));
    let outer: (Rule, Rule) = (vec![slot(0, "np"), Voca("!")], vec![slot(0, "np")]);
    let reading = Ready::Template((&outer, vec![(0, np)]));
    assert_eq!(reading.render(), " (np. red (n.apple)) !");
    assert_eq!(reading.clone().render(), reading.render());
}

#[test]
fn phrases_compare_by_content() {
    assert!(slot(1, "n") == slot(1, "n").clone());
    assert!(slot(1, "n") != slot(2, "n"));
    assert!(slot(1, "n") != slot(1, "v"));
    assert!(Voca("a") == Voca("a"));
    assert!(Voca("a") != slot(0, "a"));
}
