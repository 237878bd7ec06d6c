use phrase_rules::learn::{learn, read_dictionary, Learner};
use phrase_rules::phrase::{Phrase, Template};

fn slot(n: usize, p: &str) -> Phrase<'static> {
    Template((n, p.to_string()))
}

#[test]
fn dictionary_lines_give_word_and_part() {
    let d = read_dictionary("n.I\n v.eat \na.x.red\nn.eat");
    // a later line for the same word wins, in place
    assert_eq!(d, vec![("I", "n"), ("eat", "n"), ("red", "a")]);
}

#[test]
fn first_sentence_with_unknown_translations_learns_no_rule() {
    let dict = read_dictionary("n.I\nv.eat");
    let mut l = Learner::new(dict);
    l.absorb("S.I eat", "나 먹다");
    assert_eq!(l.sentence_idx, 1);
    assert!(l.rules.is_empty());
    assert!(l.vocab_rev.is_empty());
    assert_eq!(l.vocab, vec![("I", vec!["나", "먹다"]), ("eat", vec!["나", "먹다"])]);
}

#[test]
fn second_sentence_aligns_words_and_learns_rule() {
    let dict = read_dictionary("n.I\nv.eat\nv.run");
    let mut l = Learner::new(dict);
    l.absorb("S.I eat", "나 먹다");
    l.absorb("S.I run", "나 달리다");
    assert_eq!(l.sentence_idx, 2);
    assert_eq!(l.clear_sentence, vec![1]);
    assert_eq!(
        l.vocab_rev,
        vec![
            ("나", ("I", "n".to_string())),
            ("달리다", ("run", "v".to_string())),
            ("먹다", ("eat", "v".to_string())),
        ]
    );
    assert_eq!(l.rules.len(), 1);
    assert_eq!(l.rules[0].0, "S");
    assert_eq!(l.rules[0].1.len(), 1);
    assert!(l.rules[0].1[0].0 == vec![slot(0, "n"), slot(1, "v")]);
    assert!(l.rules[0].1[0].1 == vec![slot(0, "n"), slot(1, "v")]);
}

#[test]
fn unknown_word_is_learnt_as_noun() {
    let dict = read_dictionary("n.I");
    let mut l = Learner::new(dict);
    l.absorb("S.pear", "배");
    assert_eq!(l.dictionary, vec![("I", "n"), ("pear", "n")]);
    assert_eq!(l.vocab_rev, vec![("배", ("pear", "n".to_string()))]);
    assert!(l.rules[0].1[0].0 == vec![slot(0, "n")]);
}

#[test]
fn whole_run_reports_translations() {
    let (lines, all) = learn("S.I eat\nS.I run", "나 먹다\n나 달리다", "n.I\nv.eat\nv.run");
    assert_eq!(lines, vec!["n. I = 나", "v. run = 달리다", "v. eat = 먹다"]);
    assert!(all);
}

#[test]
fn whole_run_with_unlearnt_words() {
    let (lines, all) = learn("S.I eat", "나 먹다", "n.I\nv.eat");
    assert!(lines.is_empty());
    assert!(!all);
}

#[test]
fn second_pass_reads_sentences_by_learnt_rules() {
    let dict = read_dictionary("n.I\nv.eat\nv.run");
    let mut l = Learner::new(dict);
    l.absorb("S.I eat", "나 먹다");
    l.absorb("S.I run", "나 달리다");
    l.refine("S.I eat", "나 먹다");
    l.refine("S.I run", "나 달리다");
    assert_eq!(l.sentence_idx, 4);
    assert_eq!(l.vocab_rev.len(), 3);
    assert_eq!(l.rules[0].1.len(), 1);
    assert_eq!(l.report(), vec!["n. I = 나", "v. run = 달리다", "v. eat = 먹다"]);
}
