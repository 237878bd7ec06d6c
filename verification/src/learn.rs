//! Learning a vocabulary and rules from a source text, its translation and a
//! dictionary of parts of speech.
use vstd::prelude::*;
use crate::assemble::{spread_phrase, spread_spec, vocab_view, VocabView};
use crate::deduce::{deduce_pair_rule, deduce_rule, deduce_spec, pair_spec, PairEntryView};
use crate::phrase::{
    book_view, match_completes, match_outcome, match_phrase, pair_view, rule_view, BookView,
    PairView, Phrase, PhraseView, Rule, RuleBook,
};
use crate::table::{
    contains_num, contains_word, dict_view, find_key, lemma_find_key_found, lemma_find_key_same_keys,
    names_keyed, position_of_name, position_of_word, str_eq, strs_keyed, word_get, word_lookup,
    words_view, DictView, Words,
};
use crate::text::{lemma_split_nonempty, split_spec, split_text, trim_spec, trim_text};

verus! {

/// Each target word with the source word it translates and its part of
/// speech.
pub type VocabRevView = Seq<(Seq<char>, (Seq<char>, Seq<char>))>;

/// The mathematical value of a [`Learner`].
pub struct LearnerView {
    pub dictionary: DictView,
    pub rules: BookView,
    pub vocab: VocabView,
    pub vocab_rev: VocabRevView,
    pub clear_vocab: Words,
    pub clear_sentence: Seq<usize>,
    pub sentence_idx: int,
}

/// `s` with `k` bound to `v`: an entry with key `k` is replaced in place,
/// else the binding is added at the end.
pub open spec fn put_key<V>(s: Seq<(Seq<char>, V)>, k: Seq<char>, v: V) -> Seq<(Seq<char>, V)> {
    match find_key(s, k, 0) {
        Some(i) => s.update(i, (k, v)),
        None => s.push((k, v)),
    }
}

/// `s` with `x` added unless it is there already.
pub open spec fn set_insert<T>(s: Seq<T>, x: T) -> Seq<T> {
    if s.contains(x) {
        s
    } else {
        s.push(x)
    }
}

/// Index of the first occurrence of `x` in `s` at or after `k`.
pub open spec fn first_index(s: Words, x: Seq<char>, k: int) -> Option<int>
    decreases s.len() - k,
{
    if k < 0 || k >= s.len() {
        None
    } else if s[k] == x {
        Some(k)
    } else {
        first_index(s, x, k + 1)
    }
}

/// The words of `ws` that are not in `clear`, in order.
pub open spec fn unclaimed(ws: Words, clear: Words) -> Words
    decreases ws.len(),
{
    if ws.len() == 0 {
        ws
    } else {
        let r = unclaimed(ws.drop_last(), clear);
        if clear.contains(ws.last()) {
            r
        } else {
            r.push(ws.last())
        }
    }
}

/// The words of `ws` that occur in `present` and not in `clear`, in order.
pub open spec fn still_open(ws: Words, present: Words, clear: Words) -> Words
    decreases ws.len(),
{
    if ws.len() == 0 {
        ws
    } else {
        let r = still_open(ws.drop_last(), present, clear);
        if present.contains(ws.last()) && !clear.contains(ws.last()) {
            r.push(ws.last())
        } else {
            r
        }
    }
}

/// The part of speech of `word`, the dictionary first learning that an
/// unknown word is a noun.
pub open spec fn part_or_noun(dict: DictView, word: Seq<char>) -> (DictView, Seq<char>) {
    match word_get(dict, word) {
        Some(p) => (dict, p),
        None => (dict.push((word, seq!['n'])), seq!['n']),
    }
}

/// The learner takes `target` as the translation of `word`.
pub open spec fn claim_spec(lv: LearnerView, target: Seq<char>, word: Seq<char>) -> LearnerView {
    let (dict, p) = part_or_noun(lv.dictionary, word);
    LearnerView {
        clear_vocab: set_insert(lv.clear_vocab, target),
        dictionary: dict,
        vocab_rev: put_key(lv.vocab_rev, target, (word, p)),
        ..lv
    }
}

/// One source word of a sentence pair against the words of its translation:
/// the candidate translations of a new word are the target words not taken
/// yet; those of a known word with several are narrowed to the ones in this
/// translation; a word left with one candidate takes it. `matching` records,
/// for each target word, the position of the source word it translates.
/// `None` where the learner would panic.
pub open spec fn absorb_word(
    lv: LearnerView,
    matching: Seq<usize>,
    word: Seq<char>,
    word_idx: int,
    words_d: Words,
) -> Option<(LearnerView, Seq<usize>)> {
    match find_key(lv.vocab, word, 0) {
        None => {
            let v = unclaimed(words_d, lv.clear_vocab);
            let lv1 = LearnerView { vocab: lv.vocab.push((word, v)), ..lv };
            if v.len() == 1 {
                match first_index(words_d, v[0], 0) {
                    None => None,
                    Some(pos) => Some((claim_spec(lv1, v[0], word), matching.update(pos, word_idx as usize))),
                }
            } else {
                Some((lv1, matching))
            }
        },
        Some(q) => {
            let cur = lv.vocab[q].1;
            if cur.len() >= 2 {
                let cands = still_open(cur, words_d, lv.clear_vocab);
                let lv1 = LearnerView { vocab: lv.vocab.update(q, (word, cands)), ..lv };
                if cands.len() == 1 {
                    match first_index(words_d, cands[0], 0) {
                        None => None,
                        Some(pos) => Some(
                            (claim_spec(lv1, cands[0], word), matching.update(pos, word_idx as usize)),
                        ),
                    }
                } else {
                    Some((lv1, matching))
                }
            } else if cur.len() == 0 {
                None
            } else {
                match first_index(words_d, cur[0], 0) {
                    None => None,
                    Some(pos) => Some((lv, matching.update(pos, word_idx as usize))),
                }
            }
        },
    }
}

/// The source words from the `j`th on, in order.
pub open spec fn absorb_words(
    lv: LearnerView,
    matching: Seq<usize>,
    words_s: Words,
    words_d: Words,
    j: int,
) -> Option<(LearnerView, Seq<usize>)>
    decreases words_s.len() - j,
{
    if j < 0 || j >= words_s.len() {
        Some((lv, matching))
    } else {
        match absorb_word(lv, matching, words_s[j], j, words_d) {
            None => None,
            Some((lv1, m1)) => absorb_words(lv1, m1, words_s, words_d, j + 1),
        }
    }
}

/// After a sentence, every word from the `q`th of the vocabulary on with
/// several candidates drops the ones taken since, and takes the last one
/// left.
pub open spec fn sweep(lv: LearnerView, q: int) -> LearnerView
    decreases lv.vocab.len() - q,
{
    if q < 0 || q >= lv.vocab.len() {
        lv
    } else {
        let (k, v) = lv.vocab[q];
        if v.len() >= 2 {
            let v2 = unclaimed(v, lv.clear_vocab);
            let lv1 = LearnerView { vocab: lv.vocab.update(q, (k, v2)), ..lv };
            if v2.len() == 1 {
                sweep(claim_spec(lv1, v2[0], k), q + 1)
            } else {
                sweep(lv1, q + 1)
            }
        } else {
            sweep(lv, q + 1)
        }
    }
}

/// The source rule a sentence gives: a slot for each word, typed by the
/// dictionary (nouns where it does not know the word).
pub open spec fn source_template(words_s: Words, dict: DictView) -> Seq<PhraseView> {
    Seq::new(
        words_s.len(),
        |i: int|
            PhraseView::Template(
                i as usize,
                match word_get(dict, words_s[i]) {
                    Some(p) => p,
                    None => seq!['n'],
                },
            ),
    )
}

/// The target rule a translation gives, from the `idx`th word on, up to the
/// first word not known as a translation: a slot per word, numbered by the
/// position of its source word. Gives the rule and whether every word was
/// known.
pub open spec fn target_template(
    words_d: Words,
    vocab_rev: VocabRevView,
    matching: Seq<usize>,
    idx: int,
    acc: Seq<PhraseView>,
) -> (Seq<PhraseView>, bool)
    decreases words_d.len() - idx,
{
    if idx < 0 || idx >= words_d.len() {
        (acc, true)
    } else {
        match find_key(vocab_rev, words_d[idx], 0) {
            Some(i) => target_template(
                words_d,
                vocab_rev,
                matching,
                idx + 1,
                acc.push(PhraseView::Template(matching[idx], vocab_rev[i].1.1)),
            ),
            None => (acc, false),
        }
    }
}

/// The rules with `pair` added to those of `part`, unless it is there.
pub open spec fn add_rule(rules: BookView, part: Seq<char>, pair: PairView) -> BookView {
    match find_key(rules, part, 0) {
        Some(k) => if rules[k].1.contains(pair) {
            rules
        } else {
            rules.update(k, (part, rules[k].1.push(pair)))
        },
        None => rules.push((part, seq![pair])),
    }
}

/// The words of the source side of a line (after its last `.`), its part
/// of speech (before its first `.`), and the words of its translation.
pub open spec fn sentence_parts(s: Seq<char>, d: Seq<char>) -> (Words, Seq<char>, Words) {
    let segs = split_spec(s, '.');
    (split_spec(segs.last(), ' '), segs[0], split_spec(d, ' '))
}

/// The next sentence number; `None` where it would overflow.
pub open spec fn next_sentence(lv: LearnerView) -> Option<LearnerView> {
    if lv.sentence_idx + 1 > usize::MAX {
        None
    } else {
        Some(LearnerView { sentence_idx: lv.sentence_idx + 1, ..lv })
    }
}

/// The first pass over a sentence pair: align its words, and where every
/// translated word is known, learn the pair of a one-slot-per-word source
/// rule and the matching target rule.
pub open spec fn absorb_spec(lv: LearnerView, s: Seq<char>, d: Seq<char>) -> Option<LearnerView> {
    let (words_s, part, words_d) = sentence_parts(s, d);
    let template = source_template(words_s, lv.dictionary);
    match absorb_words(lv, Seq::new(words_d.len(), |i: int| 0usize), words_s, words_d, 0) {
        None => None,
        Some((lv1, matching)) => {
            let lv2 = sweep(lv1, 0);
            let (tt, complete) = target_template(words_d, lv2.vocab_rev, matching, 0, Seq::empty());
            if complete {
                next_sentence(
                    LearnerView {
                        clear_sentence: set_insert(lv2.clear_sentence, lv2.sentence_idx as usize),
                        rules: add_rule(lv2.rules, part, (template, tt)),
                        ..lv2
                    },
                )
            } else {
                next_sentence(lv2)
            }
        },
    }
}

/// The translations a spread target rule gives: the `k`th target word is
/// taken as the translation of the open word its slot stands for, from the
/// `k`th element on. `None` where the translation or the open words are too
/// short.
pub open spec fn record(
    vocab_rev: VocabRevView,
    rule: Seq<PhraseView>,
    args: Words,
    words_d: Words,
    k: int,
) -> Option<VocabRevView>
    decreases rule.len() - k,
{
    if k < 0 || k >= rule.len() {
        Some(vocab_rev)
    } else {
        match rule[k] {
            PhraseView::Template(n, p) => if k >= words_d.len() || n >= args.len() {
                None
            } else {
                record(put_key(vocab_rev, words_d[k], (args[n as int], p)), rule, args, words_d, k + 1)
            },
            PhraseView::Voca(_) => record(vocab_rev, rule, args, words_d, k + 1),
        }
    }
}

/// Reading a sentence by the rules learnt and spreading the reading over
/// its translation: each target word at a slot is taken as the translation
/// of the open word of that slot. `None` where the learner would panic or
/// the matcher not come back.
pub open spec fn teach_spec(lv: LearnerView, words_s: Words, words_d: Words, part: Seq<char>) -> Option<LearnerView> {
    if !match_completes(words_s, part, lv.rules, lv.dictionary) {
        None
    } else {
        match match_outcome(words_s, part, lv.rules, lv.dictionary) {
            Err(()) => Some(lv),
            Ok((_, tree)) => match spread_spec(tree, lv.vocab, lv.dictionary, 0) {
                None => None,
                Some((rule, args)) => match record(lv.vocab_rev, rule, args, words_d, 0) {
                    None => None,
                    Some(vr) => Some(LearnerView { vocab_rev: vr, ..lv }),
                },
            },
        }
    }
}

/// `teach_spec`, for sentences not explained in the first pass.
pub open spec fn teach_unexplained(lv: LearnerView, words_s: Words, words_d: Words, part: Seq<char>) -> Option<LearnerView> {
    if lv.clear_sentence.contains(lv.sentence_idx as usize) {
        Some(lv)
    } else {
        teach_spec(lv, words_s, words_d, part)
    }
}

/// Each translation with its part of speech.
pub open spec fn target_dict(vocab_rev: VocabRevView) -> DictView {
    vocab_rev.map_values(|e: (Seq<char>, (Seq<char>, Seq<char>))| (e.0, e.1.1))
}

/// The rules with each deduced pair from the `k`th on added.
pub open spec fn add_rules(rules: BookView, fresh: Seq<PairEntryView>, k: int) -> BookView
    decreases fresh.len() - k,
{
    if k < 0 || k >= fresh.len() {
        rules
    } else {
        add_rules(add_rule(rules, fresh[k].0, fresh[k].1), fresh, k + 1)
    }
}

/// The second pass over a sentence pair: read it by the rules; deduce rules
/// for what they leave unexplained in the source and its translation, learn
/// them, and read it again.
pub open spec fn refine_spec(lv: LearnerView, s: Seq<char>, d: Seq<char>) -> Option<LearnerView> {
    let (words_s, part, words_d) = sentence_parts(s, d);
    match teach_unexplained(lv, words_s, words_d, part) {
        None => None,
        Some(lv1) => match deduce_spec(words_s, part, lv1.rules, lv1.dictionary) {
            None => None,
            Some(Err(())) => next_sentence(lv1),
            Some(Ok((deduced, pair))) => match pair_spec(
                words_d,
                pair,
                deduced,
                lv1.rules,
                target_dict(lv1.vocab_rev),
            ) {
                None => None,
                Some(Err(())) => next_sentence(lv1),
                Some(Ok(fresh)) => {
                    let lv2 = LearnerView { rules: add_rules(lv1.rules, fresh, 0), ..lv1 };
                    match teach_unexplained(lv2, words_s, words_d, part) {
                        None => None,
                        Some(lv3) => next_sentence(lv3),
                    }
                },
            },
        },
    }
}

/// The first pass over the sentence pairs from the `j`th to the `n`th.
pub open spec fn absorb_all(lv: LearnerView, src: Words, dst: Words, j: int, n: int) -> Option<LearnerView>
    decreases n - j,
{
    if j < 0 || j >= n || j >= src.len() || j >= dst.len() {
        Some(lv)
    } else {
        match absorb_spec(lv, src[j], dst[j]) {
            None => None,
            Some(lv1) => absorb_all(lv1, src, dst, j + 1, n),
        }
    }
}

/// The second pass over the sentence pairs from the `j`th to the `n`th.
pub open spec fn refine_all(lv: LearnerView, src: Words, dst: Words, j: int, n: int) -> Option<LearnerView>
    decreases n - j,
{
    if j < 0 || j >= n || j >= src.len() || j >= dst.len() {
        Some(lv)
    } else {
        match refine_spec(lv, src[j], dst[j]) {
            None => None,
            Some(lv1) => refine_all(lv1, src, dst, j + 1, n),
        }
    }
}

/// A dictionary line `part.word` (trimmed; the part is before the first `.`,
/// the word after the last): `None` where the line has no `.`.
pub open spec fn dictionary_entry(line: Seq<char>) -> Option<(Seq<char>, Seq<char>)> {
    let pieces = split_spec(trim_spec(line), '.');
    if pieces.len() < 2 {
        None
    } else {
        Some((pieces.last(), pieces[0]))
    }
}

/// The dictionary that the lines from the `k`th on give on top of `dict`; a
/// later line for the same word wins.
pub open spec fn parse_dictionary(lines: Words, k: int, dict: DictView) -> Option<DictView>
    decreases lines.len() - k,
{
    if k < 0 || k >= lines.len() {
        Some(dict)
    } else {
        match dictionary_entry(lines[k]) {
            None => None,
            Some((w, p)) => parse_dictionary(lines, k + 1, put_key(dict, w, p)),
        }
    }
}

/// The line printed for one learnt translation: `part. source = target`.
pub open spec fn report_line(e: (Seq<char>, (Seq<char>, Seq<char>))) -> Seq<char> {
    e.1.1 + seq!['.', ' '] + e.1.0 + seq![' ', '=', ' '] + e.0
}

/// Whether every word of every translated line has been learnt.
pub open spec fn all_known(lines: Words, vocab_rev: VocabRevView) -> bool {
    forall|i: int, j: int|
        0 <= i < lines.len() && 0 <= j < split_spec(lines[i], ' ').len() ==> find_key(
            vocab_rev,
            #[trigger] split_spec(lines[i], ' ')[j],
            0,
        ) is Some
}

/// Every word of every line (each piece between spaces) is the target word
/// of some entry of `vocab_rev`.
pub open spec fn words_all_learnt(lines: Words, vocab_rev: VocabRevView) -> bool {
    forall|i: int, j: int|
        0 <= i < lines.len() && 0 <= j < split_spec(lines[i], ' ').len() ==> exists|k: int|
            0 <= k < vocab_rev.len() && (#[trigger] vocab_rev[k]).0 == #[trigger] split_spec(lines[i], ' ')[j]
}

/// The check that every translated word was learnt looks at each word of
/// each line, and at every learnt translation.
pub proof fn lemma_all_known_words(lines: Words, vocab_rev: VocabRevView)
    ensures
        all_known(lines, vocab_rev) <==> words_all_learnt(lines, vocab_rev),
{
    if all_known(lines, vocab_rev) {
        assert forall|i: int, j: int|
            0 <= i < lines.len() && 0 <= j < split_spec(lines[i], ' ').len() implies exists|k: int|
                0 <= k < vocab_rev.len() && (#[trigger] vocab_rev[k]).0 == #[trigger] split_spec(lines[i], ' ')[j] by {
            let w = split_spec(lines[i], ' ')[j];
            lemma_find_key_found(vocab_rev, w, 0);
            let k = find_key(vocab_rev, w, 0).unwrap();
            assert(vocab_rev[k].0 == w);
        }
    }
    if words_all_learnt(lines, vocab_rev) {
        assert forall|i: int, j: int|
            0 <= i < lines.len() && 0 <= j < split_spec(lines[i], ' ').len() implies find_key(
                vocab_rev,
                #[trigger] split_spec(lines[i], ' ')[j],
                0,
            ) is Some by {
            let w = split_spec(lines[i], ' ')[j];
            let k = choose|k: int| 0 <= k < vocab_rev.len() && (#[trigger] vocab_rev[k]).0 == w;
            if find_key(vocab_rev, w, 0) is None {
                lemma_find_key_absent(vocab_rev, w, 0);
                assert(vocab_rev[k].0 != w);
            }
        }
    }
}

/// The learner with nothing learnt yet.
pub open spec fn fresh_learner(dict: DictView) -> LearnerView {
    LearnerView {
        dictionary: dict,
        rules: Seq::empty(),
        vocab: Seq::empty(),
        vocab_rev: Seq::empty(),
        clear_vocab: Seq::empty(),
        clear_sentence: Seq::empty(),
        sentence_idx: 0,
    }
}

/// The whole run: the dictionary is read, both passes go over the sentence
/// pairs (as many as the shorter text has lines), and the learnt
/// translations are reported with whether every translated word was learnt.
/// `None` where the run would panic or a matcher not come back.
pub open spec fn learn_spec(source: Seq<char>, translated: Seq<char>, dictionary: Seq<char>) -> Option<
    (Seq<Seq<char>>, bool),
> {
    let src = split_spec(source, '\n');
    let dst = split_spec(translated, '\n');
    let n = if src.len() < dst.len() {
        src.len()
    } else {
        dst.len()
    };
    match parse_dictionary(split_spec(dictionary, '\n'), 0, Seq::empty()) {
        None => None,
        Some(dict) => match absorb_all(fresh_learner(dict), src, dst, 0, n as int) {
            None => None,
            Some(lv1) => match refine_all(lv1, src, dst, 0, n as int) {
                None => None,
                Some(lv2) => Some(
                    (lv2.vocab_rev.map_values(|e: (Seq<char>, (Seq<char>, Seq<char>))| report_line(e)), all_known(dst, lv2.vocab_rev)),
                ),
            },
        },
    }
}


/// The whole run reports one line `part. source = target` per learnt
/// translation, and says that all is clear exactly when every word of every
/// translated line is among the learnt translations.
pub proof fn lemma_learn_report(source: Seq<char>, translated: Seq<char>, dictionary: Seq<char>)
    ensures
        learn_spec(source, translated, dictionary) matches Some((lines, flag)) ==> exists|vr: VocabRevView|
            lines == vr.map_values(|e: (Seq<char>, (Seq<char>, Seq<char>))| report_line(e)) && (flag
                <==> words_all_learnt(split_spec(translated, '\n'), vr)),
{
    let src = split_spec(source, '\n');
    let dst = split_spec(translated, '\n');
    let n = if src.len() < dst.len() {
        src.len()
    } else {
        dst.len()
    };
    if let Some(dict) = parse_dictionary(split_spec(dictionary, '\n'), 0, Seq::empty()) {
        if let Some(lv1) = absorb_all(fresh_learner(dict), src, dst, 0, n as int) {
            if let Some(lv2) = refine_all(lv1, src, dst, 0, n as int) {
                lemma_all_known_words(dst, lv2.vocab_rev);
                let vr = lv2.vocab_rev;
                assert(learn_spec(source, translated, dictionary).unwrap().0 == vr.map_values(
                    |e: (Seq<char>, (Seq<char>, Seq<char>))| report_line(e),
                ));
            }
        }
    }
}

/// No key occurs twice.
pub open spec fn distinct_keys<V>(s: Seq<(Seq<char>, V)>) -> bool {
    forall|i: int, j: int| 0 <= i < j < s.len() ==> s[i].0 != s[j].0
}

/// The dictionary, the vocabulary and the translations each bind a word at
/// most once.
pub open spec fn maps_ok(lv: LearnerView) -> bool {
    &&& distinct_keys(lv.dictionary)
    &&& distinct_keys(lv.vocab)
    &&& distinct_keys(lv.vocab_rev)
}

/// Whether the rules of `part` include `pair`.
pub open spec fn book_has(b: BookView, part: Seq<char>, pair: PairView) -> bool {
    match find_key(b, part, 0) {
        Some(k) => b[k].1.contains(pair),
        None => false,
    }
}

/// Every rule of `old` is still a rule of `new`, of the same part.
pub open spec fn rules_grow(old: BookView, new: BookView) -> bool {
    forall|part: Seq<char>, pair: PairView| book_has(old, part, pair) ==> #[trigger] book_has(new, part, pair)
}

/// Where `find_key` finds nothing, no entry from `k` on has the key.
proof fn lemma_find_key_absent<V>(s: Seq<(Seq<char>, V)>, w: Seq<char>, k: int)
    requires
        0 <= k,
        find_key(s, w, k) is None,
    ensures
        forall|i: int| k <= i < s.len() ==> s[i].0 != w,
    decreases s.len() - k,
{
    if k < s.len() {
        lemma_find_key_absent(s, w, k + 1);
    }
}

/// An entry found by `find_key` is the only one with its key once the keys
/// are distinct; more to the point, the found entry has the key.
proof fn lemma_push_absent_distinct<V>(s: Seq<(Seq<char>, V)>, w: Seq<char>, v: V)
    requires
        distinct_keys(s),
        find_key(s, w, 0) is None,
    ensures
        distinct_keys(s.push((w, v))),
{
    lemma_find_key_absent(s, w, 0);
    let r = s.push((w, v));
    assert forall|i: int, j: int| 0 <= i < j < r.len() implies r[i].0 != r[j].0 by {
        if j == s.len() {
            assert(r[i] == s[i]);
        } else {
            assert(r[i] == s[i] && r[j] == s[j]);
        }
    }
}

/// Replacing the value of an entry keeps the keys.
proof fn lemma_same_key_update_distinct<V>(s: Seq<(Seq<char>, V)>, i: int, v: V)
    requires
        distinct_keys(s),
        0 <= i < s.len(),
    ensures
        distinct_keys(s.update(i, (s[i].0, v))),
{
    let r = s.update(i, (s[i].0, v));
    assert forall|a: int, b: int| 0 <= a < b < r.len() implies r[a].0 != r[b].0 by {
        assert(r[a].0 == s[a].0 && r[b].0 == s[b].0);
    }
}

/// Binding keeps the keys distinct.
proof fn lemma_put_key_distinct<V>(s: Seq<(Seq<char>, V)>, w: Seq<char>, v: V)
    requires
        distinct_keys(s),
    ensures
        distinct_keys(put_key(s, w, v)),
{
    lemma_find_key_found(s, w, 0);
    match find_key(s, w, 0) {
        Some(i) => lemma_same_key_update_distinct(s, i, v),
        None => lemma_push_absent_distinct(s, w, v),
    }
}

proof fn lemma_claim_ok(lv: LearnerView, target: Seq<char>, word: Seq<char>)
    ensures
        maps_ok(lv) ==> maps_ok(claim_spec(lv, target, word)),
        claim_spec(lv, target, word).rules == lv.rules,
        claim_spec(lv, target, word).vocab == lv.vocab,
        claim_spec(lv, target, word).clear_sentence == lv.clear_sentence,
        claim_spec(lv, target, word).sentence_idx == lv.sentence_idx,
{
    if maps_ok(lv) {
        lemma_put_key_distinct(lv.vocab_rev, target, (word, part_or_noun(lv.dictionary, word).1));
        if word_get(lv.dictionary, word) is None {
            lemma_push_absent_distinct(lv.dictionary, word, seq!['n']);
        }
    }
}

proof fn lemma_absorb_words_ok(lv: LearnerView, matching: Seq<usize>, words_s: Words, words_d: Words, j: int)
    ensures
        absorb_words(lv, matching, words_s, words_d, j) matches Some((lv1, _)) ==> {
            &&& maps_ok(lv) ==> maps_ok(lv1)
            &&& lv1.rules == lv.rules
            &&& lv1.clear_sentence == lv.clear_sentence
            &&& lv1.sentence_idx == lv.sentence_idx
        },
    decreases words_s.len() - j,
{
    if 0 <= j < words_s.len() {
        let word = words_s[j];
        lemma_find_key_found(lv.vocab, word, 0);
        match find_key(lv.vocab, word, 0) {
            None => {
                let v = unclaimed(words_d, lv.clear_vocab);
                if maps_ok(lv) {
                    lemma_push_absent_distinct(lv.vocab, word, v);
                }
                let lv1 = LearnerView { vocab: lv.vocab.push((word, v)), ..lv };
                if v.len() == 1 {
                    lemma_claim_ok(lv1, v[0], word);
                }
            },
            Some(q) => {
                let cur = lv.vocab[q].1;
                if cur.len() >= 2 {
                    let cands = still_open(cur, words_d, lv.clear_vocab);
                    if maps_ok(lv) {
                        lemma_same_key_update_distinct(lv.vocab, q, cands);
                    }
                    let lv1 = LearnerView { vocab: lv.vocab.update(q, (word, cands)), ..lv };
                    if cands.len() == 1 {
                        lemma_claim_ok(lv1, cands[0], word);
                    }
                }
            },
        }
        match absorb_word(lv, matching, word, j, words_d) {
            Some((lv1, m1)) => lemma_absorb_words_ok(lv1, m1, words_s, words_d, j + 1),
            None => {},
        }
    }
}

proof fn lemma_sweep_ok(lv: LearnerView, q: int)
    ensures
        maps_ok(lv) ==> maps_ok(sweep(lv, q)),
        sweep(lv, q).rules == lv.rules,
        sweep(lv, q).clear_sentence == lv.clear_sentence,
        sweep(lv, q).sentence_idx == lv.sentence_idx,
    decreases lv.vocab.len() - q,
{
    if 0 <= q < lv.vocab.len() {
        let (k, v) = lv.vocab[q];
        if v.len() >= 2 {
            let v2 = unclaimed(v, lv.clear_vocab);
            if maps_ok(lv) {
                lemma_same_key_update_distinct(lv.vocab, q, v2);
            }
            let lv1 = LearnerView { vocab: lv.vocab.update(q, (k, v2)), ..lv };
            if v2.len() == 1 {
                lemma_claim_ok(lv1, v2[0], k);
                lemma_sweep_ok(claim_spec(lv1, v2[0], k), q + 1);
            } else {
                lemma_sweep_ok(lv1, q + 1);
            }
        } else {
            lemma_sweep_ok(lv, q + 1);
        }
    }
}

/// Updating an entry in place, or adding one under a new key, leaves what
/// `find_key` finds for every other key.
proof fn lemma_find_key_other<V>(s: Seq<(Seq<char>, V)>, r: Seq<(Seq<char>, V)>, w: Seq<char>, k: int)
    requires
        r.len() >= s.len(),
        forall|i: int| 0 <= i < s.len() ==> #[trigger] r[i].0 == s[i].0,
        find_key(s, w, k) is Some,
    ensures
        find_key(r, w, k) == find_key(s, w, k),
    decreases s.len() - k,
{
    if 0 <= k < s.len() && s[k].0 != w {
        lemma_find_key_other(s, r, w, k + 1);
    }
}

proof fn lemma_add_rule_grows(rules: BookView, part: Seq<char>, pair: PairView)
    ensures
        rules_grow(rules, add_rule(rules, part, pair)),
        book_has(add_rule(rules, part, pair), part, pair),
{
    let r = add_rule(rules, part, pair);
    lemma_find_key_found(rules, part, 0);
    assert forall|p: Seq<char>, x: PairView| book_has(rules, p, x) implies #[trigger] book_has(r, p, x) by {
        lemma_find_key_found(rules, p, 0);
        lemma_find_key_other(rules, r, p, 0);
        let k = find_key(rules, p, 0).unwrap();
        match find_key(rules, part, 0) {
            Some(kp) => {
                if k == kp && !rules[kp].1.contains(pair) {
                    assert(r[k].1 == rules[k].1.push(pair));
                    let i = choose|i: int| 0 <= i < rules[k].1.len() && rules[k].1[i] == x;
                    assert(r[k].1[i] == x);
                } else {
                    assert(r[k] == rules[k]);
                }
            },
            None => {
                assert(r[k] == rules[k]);
            },
        }
    }
    match find_key(rules, part, 0) {
        Some(kp) => {
            if !rules[kp].1.contains(pair) {
                lemma_find_key_other(rules, r, part, 0);
                assert(r[kp].1[rules[kp].1.len() as int] == pair);
            }
        },
        None => {
            lemma_find_key_absent(rules, part, 0);
            assert(r[rules.len() as int] == (part, seq![pair]));
            assert(find_key(r, part, rules.len() as int) == Some(rules.len() as int));
            lemma_find_key_skip(r, part, 0, rules.len() as int);
            assert(r[rules.len() as int].1[0] == pair);
        },
    }
}

/// `find_key` goes past entries without the key.
proof fn lemma_find_key_skip<V>(s: Seq<(Seq<char>, V)>, w: Seq<char>, k: int, m: int)
    requires
        0 <= k <= m <= s.len(),
        forall|i: int| k <= i < m ==> s[i].0 != w,
    ensures
        find_key(s, w, k) == find_key(s, w, m),
    decreases m - k,
{
    if k < m {
        lemma_find_key_skip(s, w, k + 1, m);
    }
}

proof fn lemma_add_rules_grows(rules: BookView, fresh: Seq<PairEntryView>, k: int)
    ensures
        rules_grow(rules, add_rules(rules, fresh, k)),
    decreases fresh.len() - k,
{
    if 0 <= k < fresh.len() {
        let r1 = add_rule(rules, fresh[k].0, fresh[k].1);
        lemma_add_rule_grows(rules, fresh[k].0, fresh[k].1);
        lemma_add_rules_grows(r1, fresh, k + 1);
        assert forall|p: Seq<char>, x: PairView| book_has(rules, p, x) implies #[trigger] book_has(add_rules(rules, fresh, k), p, x) by {
            assert(book_has(r1, p, x));
        }
    }
}

proof fn lemma_record_ok(vocab_rev: VocabRevView, rule: Seq<PhraseView>, args: Words, words_d: Words, k: int)
    requires
        distinct_keys(vocab_rev),
    ensures
        record(vocab_rev, rule, args, words_d, k) matches Some(vr) ==> distinct_keys(vr),
    decreases rule.len() - k,
{
    if 0 <= k < rule.len() {
        match rule[k] {
            PhraseView::Template(n, p) => if k < words_d.len() && n < args.len() {
                lemma_put_key_distinct(vocab_rev, words_d[k], (args[n as int], p));
                lemma_record_ok(put_key(vocab_rev, words_d[k], (args[n as int], p)), rule, args, words_d, k + 1);
            },
            PhraseView::Voca(_) => lemma_record_ok(vocab_rev, rule, args, words_d, k + 1),
        }
    }
}

proof fn lemma_teach_ok(lv: LearnerView, words_s: Words, words_d: Words, part: Seq<char>)
    ensures
        teach_unexplained(lv, words_s, words_d, part) matches Some(lv1) ==> {
            &&& maps_ok(lv) ==> maps_ok(lv1)
            &&& lv1.rules == lv.rules
            &&& lv1.sentence_idx == lv.sentence_idx
        },
{
    if match_completes(words_s, part, lv.rules, lv.dictionary) {
        match match_outcome(words_s, part, lv.rules, lv.dictionary) {
            Ok((_, tree)) => match spread_spec(tree, lv.vocab, lv.dictionary, 0) {
                Some((rule, args)) => if maps_ok(lv) {
                    lemma_record_ok(lv.vocab_rev, rule, args, words_d, 0);
                },
                None => {},
            },
            Err(()) => {},
        }
    }
}

/// A dictionary read from text binds each word once.
pub proof fn lemma_parse_dictionary_distinct(lines: Words, k: int, dict: DictView)
    requires
        distinct_keys(dict),
    ensures
        parse_dictionary(lines, k, dict) matches Some(d) ==> distinct_keys(d),
    decreases lines.len() - k,
{
    if 0 <= k < lines.len() {
        match dictionary_entry(lines[k]) {
            Some((w, p)) => {
                lemma_put_key_distinct(dict, w, p);
                lemma_parse_dictionary_distinct(lines, k + 1, put_key(dict, w, p));
            },
            None => {},
        }
    }
}

/// After a source word is absorbed it has an entry in the vocabulary; where
/// that entry holds a single candidate translation that occurs in the
/// translated sentence, the first occurrence of that translation is numbered
/// by the source word's position, whether the translation was taken now or
/// before; no other number changes.
pub proof fn lemma_absorb_word_numbers(
    lv: LearnerView,
    matching: Seq<usize>,
    word: Seq<char>,
    word_idx: int,
    words_d: Words,
)
    ensures
        absorb_word(lv, matching, word, word_idx, words_d) matches Some((lv1, m1)) ==> match find_key(
            lv1.vocab,
            word,
            0,
        ) {
            Some(q) => if lv1.vocab[q].1.len() == 1 && first_index(words_d, lv1.vocab[q].1[0], 0) is Some {
                m1 == matching.update(first_index(words_d, lv1.vocab[q].1[0], 0).unwrap(), word_idx as usize)
            } else {
                m1 == matching
            },
            None => false,
        },
{
    lemma_find_key_found(lv.vocab, word, 0);
    match find_key(lv.vocab, word, 0) {
        None => {
            let v = unclaimed(words_d, lv.clear_vocab);
            let vocab1 = lv.vocab.push((word, v));
            lemma_find_key_absent(lv.vocab, word, 0);
            assert forall|i: int| 0 <= i < lv.vocab.len() implies vocab1[i].0 != word by {
                assert(vocab1[i] == lv.vocab[i]);
            }
            lemma_find_key_skip(vocab1, word, 0, lv.vocab.len() as int);
            assert(find_key(vocab1, word, 0) == Some(lv.vocab.len() as int));
            let lv1 = LearnerView { vocab: vocab1, ..lv };
            if v.len() == 1 {
                assert(claim_spec(lv1, v[0], word).vocab == vocab1);
            }
        },
        Some(q) => {
            let cur = lv.vocab[q].1;
            if cur.len() >= 2 {
                let cands = still_open(cur, words_d, lv.clear_vocab);
                let vocab1 = lv.vocab.update(q, (word, cands));
                lemma_find_key_other(lv.vocab, vocab1, word, 0);
                let lv1 = LearnerView { vocab: vocab1, ..lv };
                if cands.len() == 1 {
                    assert(claim_spec(lv1, cands[0], word).vocab == vocab1);
                }
            }
        },
    }
}

/// The first pass over a sentence pair keeps each word bound at most once
/// (where it was), keeps every rule, and moves on to the next sentence.
pub proof fn lemma_absorb_laws(lv: LearnerView, s: Seq<char>, d: Seq<char>)
    ensures
        absorb_spec(lv, s, d) matches Some(lv1) ==> {
            &&& maps_ok(lv) ==> maps_ok(lv1)
            &&& rules_grow(lv.rules, lv1.rules)
            &&& lv1.sentence_idx == lv.sentence_idx + 1
        },
{
    let (words_s, part, words_d) = sentence_parts(s, d);
    let template = source_template(words_s, lv.dictionary);
    let m0 = Seq::new(words_d.len(), |i: int| 0usize);
    lemma_absorb_words_ok(lv, m0, words_s, words_d, 0);
    match absorb_words(lv, m0, words_s, words_d, 0) {
        Some((lv1, matching)) => {
            lemma_sweep_ok(lv1, 0);
            let lv2 = sweep(lv1, 0);
            let (tt, complete) = target_template(words_d, lv2.vocab_rev, matching, 0, Seq::empty());
            lemma_add_rule_grows(lv2.rules, part, (template, tt));
            assert forall|p: Seq<char>, x: PairView| book_has(lv.rules, p, x) implies #[trigger] book_has(lv2.rules, p, x) by {}
        },
        None => {},
    }
}

/// The second pass over a sentence pair keeps each word bound at most once
/// (where it was), keeps every rule, and moves on to the next sentence.
pub proof fn lemma_refine_laws(lv: LearnerView, s: Seq<char>, d: Seq<char>)
    ensures
        refine_spec(lv, s, d) matches Some(lv1) ==> {
            &&& maps_ok(lv) ==> maps_ok(lv1)
            &&& rules_grow(lv.rules, lv1.rules)
            &&& lv1.sentence_idx == lv.sentence_idx + 1
        },
{
    let (words_s, part, words_d) = sentence_parts(s, d);
    lemma_teach_ok(lv, words_s, words_d, part);
    match teach_unexplained(lv, words_s, words_d, part) {
        Some(lv1) => {
            assert forall|p: Seq<char>, x: PairView| book_has(lv.rules, p, x) implies #[trigger] book_has(lv1.rules, p, x) by {}
            match deduce_spec(words_s, part, lv1.rules, lv1.dictionary) {
                Some(Ok((deduced, pair))) => match pair_spec(words_d, pair, deduced, lv1.rules, target_dict(lv1.vocab_rev)) {
                    Some(Ok(fresh)) => {
                        lemma_add_rules_grows(lv1.rules, fresh, 0);
                        let lv2 = LearnerView { rules: add_rules(lv1.rules, fresh, 0), ..lv1 };
                        lemma_teach_ok(lv2, words_s, words_d, part);
                        assert forall|p: Seq<char>, x: PairView| book_has(lv.rules, p, x) implies #[trigger] book_has(
                            lv2.rules,
                            p,
                            x,
                        ) by {
                            assert(book_has(lv1.rules, p, x));
                        }
                    },
                    _ => {},
                },
                _ => {},
            }
        },
        None => {},
    }
}

/// What has been learnt so far.
pub struct Learner<'a> {
    /// Each source word with its part of speech.
    pub dictionary: Vec<(&'a str, &'a str)>,
    /// The rule pairs of each part of speech.
    pub rules: Vec<(String, Vec<(Rule<'a>, Rule<'a>)>)>,
    /// Each source word with its candidate translations.
    pub vocab: Vec<(&'a str, Vec<&'a str>)>,
    /// Each translation with its source word and part of speech.
    pub vocab_rev: Vec<(&'a str, (&'a str, String))>,
    /// The translations taken.
    pub clear_vocab: Vec<&'a str>,
    /// The sentences that the first pass explained.
    pub clear_sentence: Vec<usize>,
    /// The number of sentences gone through.
    pub sentence_idx: usize,
}

pub open spec fn rules_view(r: Seq<(String, Vec<(Rule, Rule)>)>) -> BookView {
    r.map_values(|e: (String, Vec<(Rule, Rule)>)| (e.0@, e.1@.map_values(|p: (Rule, Rule)| pair_view(p))))
}

pub open spec fn vocab_rev_view(v: Seq<(&str, (&str, String))>) -> VocabRevView {
    v.map_values(|e: (&str, (&str, String))| (e.0@, (e.1.0@, e.1.1@)))
}

impl<'a> View for Learner<'a> {
    type V = LearnerView;

    open spec fn view(&self) -> LearnerView {
        LearnerView {
            dictionary: dict_view(self.dictionary@),
            rules: rules_view(self.rules@),
            vocab: vocab_view(self.vocab@),
            vocab_rev: vocab_rev_view(self.vocab_rev@),
            clear_vocab: words_view(self.clear_vocab@),
            clear_sentence: self.clear_sentence@,
            sentence_idx: self.sentence_idx as int,
        }
    }
}

/// Binds the translation `k` to `v`.
fn put_rev<'a>(vr: &mut Vec<(&'a str, (&'a str, String))>, k: &'a str, v: (&'a str, String))
    ensures
        vocab_rev_view(final(vr)@) == put_key(vocab_rev_view(old(vr)@), k@, (v.0@, v.1@)),
{
    let ghost old_s = vr@;
    let ghost ev = (k@, (v.0@, v.1@));
    proof {
        lemma_find_key_same_keys(strs_keyed(old_s), vocab_rev_view(old_s), k@, 0);
    }
    match position_of_word(vr, k) {
        Some(i) => {
            vr.set(i, (k, v));
            assert(vocab_rev_view(vr@) =~= vocab_rev_view(old_s).update(i as int, ev));
        },
        None => {
            vr.push((k, v));
            assert(vocab_rev_view(vr@) =~= vocab_rev_view(old_s).push(ev));
        },
    }
}

/// Adds the word `x` to `s` unless it is there.
fn insert_word<'a>(s: &mut Vec<&'a str>, x: &'a str)
    ensures
        words_view(final(s)@) == set_insert(words_view(old(s)@), x@),
{
    if !contains_word(s, x) {
        let ghost old_s = s@;
        s.push(x);
        assert(words_view(s@) =~= words_view(old_s).push(x@));
    }
}

/// Adds `x` to `s` unless it is there.
fn insert_num(s: &mut Vec<usize>, x: usize)
    ensures
        final(s)@ == set_insert(old(s)@, x),
{
    if !contains_num(s, x) {
        s.push(x);
    }
}

/// The position of the first occurrence of `x` in `s`.
fn position_in(s: &Vec<&str>, x: &str) -> (r: Option<usize>)
    ensures
        match r {
            Some(i) => i < s@.len() && first_index(words_view(s@), x@, 0) == Some(i as int),
            None => first_index(words_view(s@), x@, 0) is None,
        },
{
    let mut k: usize = 0;
    while k < s.len()
        invariant
            k <= s@.len(),
            first_index(words_view(s@), x@, 0) == first_index(words_view(s@), x@, k as int),
        decreases s@.len() - k,
    {
        if str_eq(s[k], x) {
            return Some(k);
        }
        k = k + 1;
    }
    None
}

/// The words of `ws` not in `clear`.
fn unclaimed_exec<'a>(ws: &Vec<&'a str>, clear: &Vec<&'a str>) -> (r: Vec<&'a str>)
    ensures
        words_view(r@) == unclaimed(words_view(ws@), words_view(clear@)),
{
    let ghost wv = words_view(ws@);
    let mut r: Vec<&'a str> = Vec::new();
    let mut j: usize = 0;
    while j < ws.len()
        invariant
            j <= ws@.len(),
            wv == words_view(ws@),
            words_view(r@) == unclaimed(wv.take(j as int), words_view(clear@)),
        decreases ws@.len() - j,
    {
        let ghost before = r@;
        assert(wv.take(j + 1).drop_last() =~= wv.take(j as int));
        if !contains_word(clear, ws[j]) {
            r.push(ws[j]);
            assert(words_view(r@) =~= words_view(before).push(wv[j as int]));
        }
        j = j + 1;
    }
    assert(wv.take(ws@.len() as int) =~= wv);
    r
}

/// The words of `ws` that occur in `present` and not in `clear`.
fn still_open_exec<'a>(ws: &Vec<&'a str>, present: &Vec<&'a str>, clear: &Vec<&'a str>) -> (r: Vec<&'a str>)
    ensures
        words_view(r@) == still_open(words_view(ws@), words_view(present@), words_view(clear@)),
{
    let ghost wv = words_view(ws@);
    let mut r: Vec<&'a str> = Vec::new();
    let mut j: usize = 0;
    while j < ws.len()
        invariant
            j <= ws@.len(),
            wv == words_view(ws@),
            words_view(r@) == still_open(wv.take(j as int), words_view(present@), words_view(clear@)),
        decreases ws@.len() - j,
    {
        let ghost before = r@;
        assert(wv.take(j + 1).drop_last() =~= wv.take(j as int));
        if contains_word(present, ws[j]) && !contains_word(clear, ws[j]) {
            r.push(ws[j]);
            assert(words_view(r@) =~= words_view(before).push(wv[j as int]));
        }
        j = j + 1;
    }
    assert(wv.take(ws@.len() as int) =~= wv);
    r
}

/// Whether two rules are equal.
fn rule_eq(a: &Rule, b: &Rule) -> (r: bool)
    ensures
        r == (rule_view(*a) == rule_view(*b)),
{
    if a.len() != b.len() {
        assert(rule_view(*a).len() != rule_view(*b).len());
        return false;
    }
    let mut k: usize = 0;
    while k < a.len()
        invariant
            k <= a@.len(),
            a@.len() == b@.len(),
            forall|j: int| 0 <= j < k ==> a@[j]@ == b@[j]@,
        decreases a@.len() - k,
    {
        if !(a[k] == b[k]) {
            assert(rule_view(*a)[k as int] != rule_view(*b)[k as int]);
            return false;
        }
        k = k + 1;
    }
    assert(rule_view(*a) =~= rule_view(*b));
    true
}

/// A copy of a rule.
fn clone_rule<'a>(r: &Rule<'a>) -> (c: Rule<'a>)
    ensures
        rule_view(c) == rule_view(*r),
{
    let mut c: Rule<'a> = Vec::new();
    let mut k: usize = 0;
    while k < r.len()
        invariant
            k <= r@.len(),
            c@.len() == k,
            forall|j: int| 0 <= j < k ==> c@[j]@ == r@[j]@,
        decreases r@.len() - k,
    {
        c.push(r[k].clone());
        k = k + 1;
    }
    assert(rule_view(c) =~= rule_view(*r));
    c
}

/// Whether `pairs` holds a pair equal to `pair`.
fn contains_pair<'a>(pairs: &Vec<(Rule<'a>, Rule<'a>)>, pair: &(Rule<'a>, Rule<'a>)) -> (r: bool)
    ensures
        r == pairs@.map_values(|p: (Rule, Rule)| pair_view(p)).contains(pair_view(*pair)),
{
    let ghost pv = pairs@.map_values(|p: (Rule, Rule)| pair_view(p));
    let mut k: usize = 0;
    while k < pairs.len()
        invariant
            k <= pairs@.len(),
            pv == pairs@.map_values(|p: (Rule, Rule)| pair_view(p)),
            forall|j: int| 0 <= j < k ==> pv[j] != pair_view(*pair),
        decreases pairs@.len() - k,
    {
        if rule_eq(&pairs[k].0, &pair.0) && rule_eq(&pairs[k].1, &pair.1) {
            assert(pv[k as int] == pair_view(*pair));
            return true;
        }
        k = k + 1;
    }
    false
}

/// Adds `pair` to the rules of `part` unless it is there.
fn add_rule_exec<'a>(rules: &mut Vec<(String, Vec<(Rule<'a>, Rule<'a>)>)>, part: &str, pair: (Rule<'a>, Rule<'a>))
    ensures
        rules_view(final(rules)@) == add_rule(rules_view(old(rules)@), part@, pair_view(pair)),
{
    let ghost old_s = rules@;
    let ghost pv = pair_view(pair);
    proof {
        lemma_find_key_same_keys(names_keyed(old_s), rules_view(old_s), part@, 0);
        lemma_find_key_found(rules_view(old_s), part@, 0);
    }
    match position_of_name(rules, part) {
        Some(k) => {
            assert(old_s[k as int].0@ == part@);
            if !contains_pair(&rules[k].1, &pair) {
                let ghost before = old_s[k as int].1@;
                rules[k].1.push(pair);
                assert(rules@[k as int].1@.map_values(|p: (Rule, Rule)| pair_view(p)) =~= before.map_values(|p: (Rule, Rule)| pair_view(p)).push(pv));
                assert(rules@[k as int].0 == old_s[k as int].0);
                assert forall|i: int| 0 <= i < rules@.len() && i != k implies rules@[i] == old_s[i] by {}
                assert(rules_view(rules@) =~= rules_view(old_s).update(
                    k as int,
                    (part@, rules_view(old_s)[k as int].1.push(pv)),
                ));
            }
        },
        None => {
            let mut pairs: Vec<(Rule<'a>, Rule<'a>)> = Vec::new();
            pairs.push(pair);
            assert(pairs@.map_values(|p: (Rule, Rule)| pair_view(p)) =~= seq![pv]);
            rules.push((part.to_owned(), pairs));
            assert(rules_view(rules@) =~= rules_view(old_s).push((part@, seq![pv])));
        },
    }
}

/// The source rule a sentence gives (see `source_template`).
fn source_template_exec<'a>(words_s: &Vec<&'a str>, dictionary: &Vec<(&str, &str)>) -> (r: Rule<'a>)
    ensures
        rule_view(r) == source_template(words_view(words_s@), dict_view(dictionary@)),
{
    let ghost goal = source_template(words_view(words_s@), dict_view(dictionary@));
    let mut r: Rule<'a> = Vec::new();
    let mut i: usize = 0;
    while i < words_s.len()
        invariant
            i <= words_s@.len(),
            goal == source_template(words_view(words_s@), dict_view(dictionary@)),
            r@.len() == i,
            forall|j: int| 0 <= j < i ==> r@[j]@ == goal[j],
        decreases words_s@.len() - i,
    {
        let part = match word_lookup(dictionary, words_s[i]) {
            Some(p) => p,
            None => "n",
        };
        proof {
            reveal_strlit("n");
            assert("n"@ =~= seq!['n']);
        }
        r.push(Phrase::Template((i, part.to_owned())));
        i = i + 1;
    }
    assert(rule_view(r) =~= goal);
    r
}

/// The target rule a translation gives (see `target_template`).
fn target_template_exec<'a>(
    words_d: &Vec<&'a str>,
    vocab_rev: &Vec<(&'a str, (&'a str, String))>,
    matching: &Vec<usize>,
) -> (r: (Rule<'a>, bool))
    requires
        matching@.len() == words_d@.len(),
    ensures
        target_template(words_view(words_d@), vocab_rev_view(vocab_rev@), matching@, 0, Seq::empty()) == (
            rule_view(r.0),
            r.1,
        ),
{
    let ghost goal = target_template(words_view(words_d@), vocab_rev_view(vocab_rev@), matching@, 0, Seq::empty());
    let mut r: Rule<'a> = Vec::new();
    let mut idx: usize = 0;
    assert(rule_view(r) =~= Seq::empty());
    while idx < words_d.len()
        invariant
            idx <= words_d@.len(),
            matching@.len() == words_d@.len(),
            goal == target_template(words_view(words_d@), vocab_rev_view(vocab_rev@), matching@, 0, Seq::empty()),
            target_template(words_view(words_d@), vocab_rev_view(vocab_rev@), matching@, idx as int, rule_view(r)) == goal,
        decreases words_d@.len() - idx,
    {
        proof {
            lemma_find_key_same_keys(strs_keyed(vocab_rev@), vocab_rev_view(vocab_rev@), words_d@[idx as int]@, 0);
        }
        match position_of_word(vocab_rev, words_d[idx]) {
            Some(i) => {
                let ghost before = r@;
                r.push(Phrase::Template((matching[idx], vocab_rev[i].1.1.clone())));
                assert(rule_view(r) =~= before.map_values(|p: Phrase| p@).push(r@.last()@));
            },
            None => {
                return (r, false);
            },
        }
        idx = idx + 1;
    }
    (r, true)
}

/// The rules as a rule book of references into them.
fn book_refs<'r, 'a>(rules: &'r Vec<(String, Vec<(Rule<'a>, Rule<'a>)>)>) -> (b: RuleBook<'r, 'a>)
    ensures
        book_view(b@) == rules_view(rules@),
{
    let mut b: RuleBook<'r, 'a> = Vec::new();
    let mut k: usize = 0;
    while k < rules.len()
        invariant
            k <= rules@.len(),
            b@.len() == k,
            forall|j: int| 0 <= j < k ==> #[trigger] book_view(b@)[j] == rules_view(rules@)[j],
        decreases rules@.len() - k,
    {
        let pairs: &'r Vec<(Rule<'a>, Rule<'a>)> = &rules[k].1;
        let mut refs: Vec<&'r (Rule<'a>, Rule<'a>)> = Vec::new();
        let mut j: usize = 0;
        while j < pairs.len()
            invariant
                j <= pairs@.len(),
                refs@.len() == j,
                forall|i: int| 0 <= i < j ==> *refs@[i] == pairs@[i],
            decreases pairs@.len() - j,
        {
            refs.push(&pairs[j]);
            j = j + 1;
        }
        let ghost bv = b@;
        b.push((rules[k].0.clone(), refs));
        proof {
            assert(refs@.map_values(|p: &(Rule, Rule)| pair_view(*p)) =~= pairs@.map_values(|p: (Rule, Rule)| pair_view(p)));
            assert forall|i: int| 0 <= i < k + 1 implies #[trigger] book_view(b@)[i] == rules_view(rules@)[i] by {
                if i < k {
                    assert(b@[i] == bv[i]);
                    assert(book_view(bv)[i] == rules_view(rules@)[i]);
                }
            }
        }
        k = k + 1;
    }
    assert(book_view(b@) =~= rules_view(rules@));
    b
}

/// Each translation with its part of speech.
fn target_dict_exec<'t>(vocab_rev: &'t Vec<(&'t str, (&'t str, String))>) -> (d: Vec<(&'t str, &'t str)>)
    ensures
        dict_view(d@) == target_dict(vocab_rev_view(vocab_rev@)),
{
    let mut d: Vec<(&'t str, &'t str)> = Vec::new();
    let mut k: usize = 0;
    while k < vocab_rev.len()
        invariant
            k <= vocab_rev@.len(),
            d@.len() == k,
            forall|j: int| 0 <= j < k ==> #[trigger] dict_view(d@)[j] == target_dict(vocab_rev_view(vocab_rev@))[j],
        decreases vocab_rev@.len() - k,
    {
        let ghost dv = d@;
        d.push((vocab_rev[k].0, vocab_rev[k].1.1.as_str()));
        proof {
            assert forall|j: int| 0 <= j < k + 1 implies #[trigger] dict_view(d@)[j] == target_dict(vocab_rev_view(vocab_rev@))[j] by {
                if j < k {
                    assert(d@[j] == dv[j]);
                    assert(dict_view(dv)[j] == target_dict(vocab_rev_view(vocab_rev@))[j]);
                }
            }
        }
        k = k + 1;
    }
    assert(dict_view(d@) =~= target_dict(vocab_rev_view(vocab_rev@)));
    d
}

/// Owned copies of deduced rule pairs.
fn own_pairs<'d, 'a>(fresh: &Vec<(String, (&'d Rule<'a>, Rule<'a>))>) -> (r: Vec<(String, (Rule<'a>, Rule<'a>))>)
    ensures
        r@.len() == fresh@.len(),
        forall|j: int| 0 <= j < r@.len() ==> (#[trigger] r@[j]).0@ == fresh@[j].0@ && pair_view(r@[j].1) == (
            rule_view(*fresh@[j].1.0),
            rule_view(fresh@[j].1.1),
        ),
{
    let mut r: Vec<(String, (Rule<'a>, Rule<'a>))> = Vec::new();
    let mut k: usize = 0;
    while k < fresh.len()
        invariant
            k <= fresh@.len(),
            r@.len() == k,
            forall|j: int| 0 <= j < k ==> (#[trigger] r@[j]).0@ == fresh@[j].0@ && pair_view(r@[j].1) == (
                rule_view(*fresh@[j].1.0),
                rule_view(fresh@[j].1.1),
            ),
        decreases fresh@.len() - k,
    {
        let o = clone_rule(fresh[k].1.0);
        let t = clone_rule(&fresh[k].1.1);
        r.push((fresh[k].0.clone(), (o, t)));
        k = k + 1;
    }
    r
}

impl<'a> Learner<'a> {
    /// A learner that knows the dictionary and nothing else.
    pub fn new(dictionary: Vec<(&'a str, &'a str)>) -> (l: Self)
        ensures
            l@ == fresh_learner(dict_view(dictionary@)),
            distinct_keys(dict_view(dictionary@)) ==> maps_ok(l@),
    {
        let l = Learner {
            dictionary,
            rules: Vec::new(),
            vocab: Vec::new(),
            vocab_rev: Vec::new(),
            clear_vocab: Vec::new(),
            clear_sentence: Vec::new(),
            sentence_idx: 0,
        };
        assert(l@.rules =~= Seq::empty());
        assert(l@.vocab =~= Seq::empty());
        assert(l@.vocab_rev =~= Seq::empty());
        assert(l@.clear_vocab =~= Seq::empty());
        l
    }

    /// Takes `target` as the translation of `word`.
    fn claim(&mut self, target: &'a str, word: &'a str)
        ensures
            final(self)@ == claim_spec(old(self)@, target@, word@),
    {
        insert_word(&mut self.clear_vocab, target);
        let part = match word_lookup(&self.dictionary, word) {
            Some(p) => p.to_owned(),
            None => {
                let ghost before = self.dictionary@;
                self.dictionary.push((word, "n"));
                proof {
                    reveal_strlit("n");
                    assert("n"@ =~= seq!['n']);
                    assert(dict_view(self.dictionary@) =~= dict_view(before).push((word@, seq!['n'])));
                }
                "n".to_owned()
            },
        };
        put_rev(&mut self.vocab_rev, target, (word, part));
    }

    /// One source word against the words of the translation (see
    /// `absorb_word`).
    fn absorb_one(&mut self, matching: &mut Vec<usize>, word: &'a str, word_idx: usize, words_d: &Vec<&'a str>)
        requires
            absorb_word(old(self)@, old(matching)@, word@, word_idx as int, words_view(words_d@)) is Some,
            old(matching)@.len() == words_d@.len(),
        ensures
            final(matching)@.len() == words_d@.len(),
            absorb_word(old(self)@, old(matching)@, word@, word_idx as int, words_view(words_d@)) == Some(
                (final(self)@, final(matching)@),
            ),
            match find_key(final(self)@.vocab, word@, 0) {
                Some(q) => if final(self)@.vocab[q].1.len() == 1 && first_index(
                    words_view(words_d@),
                    final(self)@.vocab[q].1[0],
                    0,
                ) is Some {
                    final(matching)@ == old(matching)@.update(
                        first_index(words_view(words_d@), final(self)@.vocab[q].1[0], 0).unwrap(),
                        word_idx,
                    )
                } else {
                    final(matching)@ == old(matching)@
                },
                None => false,
            },
    {
        let ghost lv = self@;
        proof {
            lemma_absorb_word_numbers(self@, matching@, word@, word_idx as int, words_view(words_d@));
            lemma_find_key_same_keys(strs_keyed(self.vocab@), vocab_view(self.vocab@), word@, 0);
            lemma_find_key_found(vocab_view(self.vocab@), word@, 0);
        }
        match position_of_word(&self.vocab, word) {
            None => {
                let v = unclaimed_exec(words_d, &self.clear_vocab);
                let one = v.len() == 1;
                let first = if one { Some(v[0]) } else { None };
                let ghost old_vocab = self.vocab@;
                self.vocab.push((word, v));
                assert(vocab_view(self.vocab@) =~= vocab_view(old_vocab).push((word@, words_view(v@))));
                if let Some(t) = first {
                    self.claim(t, word);
                    match position_in(words_d, t) {
                        Some(pos) => {
                            matching.set(pos, word_idx);
                        },
                        None => {},
                    }
                }
            },
            Some(q) => {
                if self.vocab[q].1.len() >= 2 {
                    let cands = still_open_exec(&self.vocab[q].1, words_d, &self.clear_vocab);
                    let first = if cands.len() == 1 { Some(cands[0]) } else { None };
                    let ghost old_vocab = self.vocab@;
                    let key = self.vocab[q].0;
                    let ghost cv = words_view(cands@);
                    self.vocab.set(q, (key, cands));
                    assert(vocab_view(self.vocab@) =~= vocab_view(old_vocab).update(q as int, (word@, cv)));
                    if let Some(t) = first {
                        self.claim(t, word);
                        match position_in(words_d, t) {
                            Some(pos) => {
                                matching.set(pos, word_idx);
                            },
                            None => {},
                        }
                    }
                } else if self.vocab[q].1.len() == 0 {
                } else {
                    let t = self.vocab[q].1[0];
                    match position_in(words_d, t) {
                        Some(pos) => {
                            matching.set(pos, word_idx);
                        },
                        None => {},
                    }
                }
            },
        }
    }

    /// The first pass over a sentence pair (see `absorb_spec`): `s` is
    /// `part.words` of the source text, `d` the translated line.
    pub fn absorb(&mut self, s: &'a str, d: &'a str)
        requires
            absorb_spec(old(self)@, s@, d@) is Some,
        ensures
            absorb_spec(old(self)@, s@, d@) == Some(final(self)@),
            maps_ok(old(self)@) ==> maps_ok(final(self)@),
            rules_grow(old(self)@.rules, final(self)@.rules),
            final(self)@.sentence_idx == old(self)@.sentence_idx + 1,
    {
        proof {
            lemma_absorb_laws(self@, s@, d@);
        }
        let ghost lv = self@;
        let segs = split_text(s, '.');
        proof {
            lemma_split_nonempty(s@, '.');
        }
        let words_s = split_text(segs[segs.len() - 1], ' ');
        let part = segs[0];
        let words_d = split_text(d, ' ');
        proof {
            assert(words_view(segs@)[segs@.len() - 1] == segs@[segs@.len() - 1]@);
            assert(words_view(segs@)[0] == segs@[0]@);
        }
        let template = source_template_exec(&words_s, &self.dictionary);
        let mut matching: Vec<usize> = Vec::new();
        while matching.len() < words_d.len()
            invariant
                matching@.len() <= words_d@.len(),
                forall|i: int| 0 <= i < matching@.len() ==> matching@[i] == 0,
            decreases words_d@.len() - matching@.len(),
        {
            matching.push(0);
        }
        assert(matching@ =~= Seq::new(words_d@.len(), |i: int| 0usize));
        let ghost ws = words_view(words_s@);
        let ghost wd = words_view(words_d@);
        let ghost start = absorb_words(lv, matching@, ws, wd, 0);
        let mut j: usize = 0;
        while j < words_s.len()
            invariant
                j <= words_s@.len(),
                ws == words_view(words_s@),
                wd == words_view(words_d@),
                matching@.len() == words_d@.len(),
                start is Some,
                absorb_words(self@, matching@, ws, wd, j as int) == start,
            decreases words_s@.len() - j,
        {
            self.absorb_one(&mut matching, words_s[j], j, &words_d);
            j = j + 1;
        }
        self.sweep_all();
        let (tt, complete) = target_template_exec(&words_d, &self.vocab_rev, &matching);
        if complete {
            insert_num(&mut self.clear_sentence, self.sentence_idx);
            add_rule_exec(&mut self.rules, part, (template, tt));
        }
        self.sentence_idx = self.sentence_idx + 1;
    }

    /// Reads a sentence by the rules learnt and takes the translations the
    /// reading gives (see `teach_spec`).
    fn teach(&mut self, words_s: &Vec<&'a str>, words_d: &Vec<&'a str>, part: &str)
        requires
            teach_spec(old(self)@, words_view(words_s@), words_view(words_d@), part@) is Some,
        ensures
            teach_spec(old(self)@, words_view(words_s@), words_view(words_d@), part@) == Some(final(self)@),
    {
        let ghost lv = self@;
        let book = book_refs(&self.rules);
        let m = match_phrase(words_s, part, &book, &self.dictionary);
        match m {
            Err(()) => {},
            Ok((_, tree)) => {
                let (rule, args) = spread_phrase(&tree, &self.vocab, &self.dictionary, 0);
                let ghost rv = rule_view(rule);
                let ghost av = words_view(args@);
                let ghost wd = words_view(words_d@);
                let ghost goal = record(lv.vocab_rev, rv, av, wd, 0);
                let mut i: usize = 0;
                while i < rule.len()
                    invariant
                        i <= rule@.len(),
                        rv == rule_view(rule),
                        av == words_view(args@),
                        wd == words_view(words_d@),
                        goal is Some,
                        record(vocab_rev_view(self.vocab_rev@), rv, av, wd, i as int) == goal,
                        self@ == (LearnerView { vocab_rev: vocab_rev_view(self.vocab_rev@), ..lv }),
                    decreases rule@.len() - i,
                {
                    assert(rv[i as int] == rule@[i as int]@);
                    match &rule[i] {
                        Phrase::Template((n, p)) => {
                            if i >= words_d.len() || *n >= args.len() {
                                return ;
                            }
                            let word = words_d[i];
                            let r = args[*n];
                            put_rev(&mut self.vocab_rev, word, (r, p.clone()));
                        },
                        Phrase::Voca(_) => {},
                    }
                    i = i + 1;
                }
            },
        }
    }

    /// The second pass over a sentence pair (see `refine_spec`).
    pub fn refine(&mut self, s: &'a str, d: &'a str)
        requires
            refine_spec(old(self)@, s@, d@) is Some,
        ensures
            refine_spec(old(self)@, s@, d@) == Some(final(self)@),
            maps_ok(old(self)@) ==> maps_ok(final(self)@),
            rules_grow(old(self)@.rules, final(self)@.rules),
            final(self)@.sentence_idx == old(self)@.sentence_idx + 1,
    {
        proof {
            lemma_refine_laws(self@, s@, d@);
        }
        let segs = split_text(s, '.');
        proof {
            lemma_split_nonempty(s@, '.');
        }
        let words_s = split_text(segs[segs.len() - 1], ' ');
        let part = segs[0];
        let words_d = split_text(d, ' ');
        proof {
            assert(words_view(segs@)[segs@.len() - 1] == segs@[segs@.len() - 1]@);
            assert(words_view(segs@)[0] == segs@[0]@);
        }
        if !contains_num(&self.clear_sentence, self.sentence_idx) {
            self.teach(&words_s, &words_d, part);
        }
        let ghost lv1 = self@;
        let additions: Option<Vec<(String, (Rule<'a>, Rule<'a>))>> = {
            let book = book_refs(&self.rules);
            match deduce_rule(&words_s, part, &book, &self.dictionary) {
                Err(()) => None,
                Ok((deduced, pair)) => {
                    let tdict = target_dict_exec(&self.vocab_rev);
                    match deduce_pair_rule(&words_d, pair, &deduced, &book, &tdict) {
                        Err(()) => None,
                        Ok(fresh) => {
                            let owned = own_pairs(&fresh);
                            proof {
                                assert(owned@.map_values(|e: (String, (Rule, Rule))| (e.0@, pair_view(e.1)))
                                    =~= crate::deduce::pair_entries_view(fresh@));
                            }
                            Some(owned)
                        },
                    }
                },
            }
        };
        if let Some(adds) = additions {
            let ghost fv = adds@.map_values(|e: (String, (Rule, Rule))| (e.0@, pair_view(e.1)));
            let ghost goal = add_rules(lv1.rules, fv, 0);
            let mut k: usize = 0;
            while k < adds.len()
                invariant
                    k <= adds@.len(),
                    fv == adds@.map_values(|e: (String, (Rule, Rule))| (e.0@, pair_view(e.1))),
                    add_rules(rules_view(self.rules@), fv, k as int) == goal,
                    self@ == (LearnerView { rules: rules_view(self.rules@), ..lv1 }),
                decreases adds@.len() - k,
            {
                let o = clone_rule(&adds[k].1.0);
                let t = clone_rule(&adds[k].1.1);
                add_rule_exec(&mut self.rules, adds[k].0.as_str(), (o, t));
                k = k + 1;
            }
            if !contains_num(&self.clear_sentence, self.sentence_idx) {
                self.teach(&words_s, &words_d, part);
            }
        }
        self.sentence_idx = self.sentence_idx + 1;
    }

    /// The learnt translations, one line each: `part. source = target`.
    pub fn report(&self) -> (lines: Vec<String>)
        ensures
            lines@.map_values(|l: String| l@) == self@.vocab_rev.map_values(
                |e: (Seq<char>, (Seq<char>, Seq<char>))| report_line(e),
            ),
    {
        let ghost goal = self@.vocab_rev.map_values(|e: (Seq<char>, (Seq<char>, Seq<char>))| report_line(e));
        let mut lines: Vec<String> = Vec::new();
        let mut k: usize = 0;
        while k < self.vocab_rev.len()
            invariant
                k <= self.vocab_rev@.len(),
                goal == self@.vocab_rev.map_values(|e: (Seq<char>, (Seq<char>, Seq<char>))| report_line(e)),
                lines@.len() == k,
                forall|j: int| 0 <= j < k ==> #[trigger] lines@[j]@ == goal[j],
            decreases self.vocab_rev@.len() - k,
        {
            let (target, (source, part)) = &self.vocab_rev[k];
            let mut line = part.clone();
            line.append(". ");
            line.append(source);
            line.append(" = ");
            line.append(target);
            proof {
                reveal_strlit(". ");
                reveal_strlit(" = ");
                assert(line@ =~= report_line(self@.vocab_rev[k as int]));
            }
            lines.push(line);
            k = k + 1;
        }
        assert(lines@.map_values(|l: String| l@) =~= goal);
        lines
    }

    /// Narrows the candidates of every word of the vocabulary (see `sweep`).
    fn sweep_all(&mut self)
        ensures
            final(self)@ == sweep(old(self)@, 0),
    {
        let ghost goal = sweep(self@, 0);
        let mut q: usize = 0;
        while q < self.vocab.len()
            invariant
                q <= self.vocab@.len(),
                sweep(self@, q as int) == goal,
            decreases self.vocab@.len() - q,
        {
            if self.vocab[q].1.len() >= 2 {
                let v2 = unclaimed_exec(&self.vocab[q].1, &self.clear_vocab);
                let first = if v2.len() == 1 { Some(v2[0]) } else { None };
                let key = self.vocab[q].0;
                let ghost old_vocab = self.vocab@;
                let ghost v2v = words_view(v2@);
                self.vocab.set(q, (key, v2));
                assert(vocab_view(self.vocab@) =~= vocab_view(old_vocab).update(q as int, (key@, v2v)));
                if let Some(t) = first {
                    self.claim(t, key);
                }
            }
            q = q + 1;
        }
    }
}

/// Binds the word `k` to `v` in a dictionary.
fn put_dict<'a>(d: &mut Vec<(&'a str, &'a str)>, k: &'a str, v: &'a str)
    ensures
        dict_view(final(d)@) == put_key(dict_view(old(d)@), k@, v@),
{
    let ghost old_s = d@;
    proof {
        lemma_find_key_same_keys(strs_keyed(old_s), dict_view(old_s), k@, 0);
    }
    match position_of_word(d, k) {
        Some(i) => {
            d.set(i, (k, v));
            assert(dict_view(d@) =~= dict_view(old_s).update(i as int, (k@, v@)));
        },
        None => {
            d.push((k, v));
            assert(dict_view(d@) =~= dict_view(old_s).push((k@, v@)));
        },
    }
}

/// Reads the dictionary text, a line `part.word` per word (see
/// `parse_dictionary`).
pub fn read_dictionary<'a>(text: &'a str) -> (d: Vec<(&'a str, &'a str)>)
    requires
        parse_dictionary(split_spec(text@, '\n'), 0, Seq::empty()) is Some,
    ensures
        parse_dictionary(split_spec(text@, '\n'), 0, Seq::empty()) == Some(dict_view(d@)),
        distinct_keys(dict_view(d@)),
{
    proof {
        lemma_parse_dictionary_distinct(split_spec(text@, '\n'), 0, Seq::empty());
    }
    let lines = split_text(text, '\n');
    let ghost lv = words_view(lines@);
    let ghost goal = parse_dictionary(lv, 0, Seq::empty());
    let mut d: Vec<(&'a str, &'a str)> = Vec::new();
    assert(dict_view(d@) =~= Seq::empty());
    let mut k: usize = 0;
    while k < lines.len()
        invariant
            k <= lines@.len(),
            lv == words_view(lines@),
            goal is Some,
            parse_dictionary(lv, k as int, dict_view(d@)) == goal,
        decreases lines@.len() - k,
    {
        let trimmed = trim_text(lines[k]);
        let pieces = split_text(trimmed, '.');
        if pieces.len() < 2 {
            return d;
        }
        proof {
            assert(words_view(pieces@)[pieces@.len() - 1] == pieces@[pieces@.len() - 1]@);
            assert(words_view(pieces@)[0] == pieces@[0]@);
        }
        put_dict(&mut d, pieces[pieces.len() - 1], pieces[0]);
        k = k + 1;
    }
    d
}

/// Whether every word of every line is a learnt translation.
fn all_known_exec(lines: &Vec<&str>, vocab_rev: &Vec<(&str, (&str, String))>) -> (r: bool)
    ensures
        r == all_known(words_view(lines@), vocab_rev_view(vocab_rev@)),
        r <==> words_all_learnt(words_view(lines@), vocab_rev_view(vocab_rev@)),
{
    let ghost lv = words_view(lines@);
    let ghost vr = vocab_rev_view(vocab_rev@);
    let mut i: usize = 0;
    while i < lines.len()
        invariant
            i <= lines@.len(),
            lv == words_view(lines@),
            vr == vocab_rev_view(vocab_rev@),
            forall|a: int, b: int|
                0 <= a < i && 0 <= b < split_spec(lv[a], ' ').len() ==> find_key(
                    vr,
                    #[trigger] split_spec(lv[a], ' ')[b],
                    0,
                ) is Some,
        decreases lines@.len() - i,
    {
        let words = split_text(lines[i], ' ');
        let ghost ws = split_spec(lv[i as int], ' ');
        assert(words_view(words@) == ws);
        let mut j: usize = 0;
        while j < words.len()
            invariant
                j <= words@.len(),
                i < lines@.len(),
                lv == words_view(lines@),
                ws == split_spec(lv[i as int], ' '),
                words_view(words@) == ws,
                vr == vocab_rev_view(vocab_rev@),
                forall|b: int| 0 <= b < j ==> find_key(vr, #[trigger] ws[b], 0) is Some,
            decreases words@.len() - j,
        {
            proof {
                lemma_find_key_same_keys(strs_keyed(vocab_rev@), vr, words@[j as int]@, 0);
                assert(ws[j as int] == words@[j as int]@);
            }
            if position_of_word(vocab_rev, words[j]).is_none() {
                assert(!all_known(lv, vr)) by {
                    assert(find_key(vr, split_spec(lv[i as int], ' ')[j as int], 0) is None);
                }
                proof {
                    lemma_all_known_words(lv, vr);
                }
                return false;
            }
            j = j + 1;
        }
        i = i + 1;
    }
    proof {
        lemma_all_known_words(lv, vr);
    }
    true
}

/// The whole run on the source text (lines `part.words`), its translation
/// (a line per source line) and the dictionary (see `learn_spec`): the
/// learnt translations, one line each, and whether every translated word
/// was learnt.
pub fn learn<'a>(source: &'a str, translated: &'a str, dictionary: &'a str) -> (r: (Vec<String>, bool))
    requires
        learn_spec(source@, translated@, dictionary@) is Some,
    ensures
        learn_spec(source@, translated@, dictionary@) == Some((r.0@.map_values(|l: String| l@), r.1)),
        exists|vr: VocabRevView|
            r.0@.map_values(|l: String| l@) == vr.map_values(|e: (Seq<char>, (Seq<char>, Seq<char>))| report_line(e))
                && (r.1 <==> words_all_learnt(split_spec(translated@, '\n'), vr)),
{
    proof {
        lemma_learn_report(source@, translated@, dictionary@);
    }
    let src = split_text(source, '\n');
    let dst = split_text(translated, '\n');
    let dict = read_dictionary(dictionary);
    let n = if src.len() < dst.len() {
        src.len()
    } else {
        dst.len()
    };
    let ghost sv = words_view(src@);
    let ghost dv = words_view(dst@);
    let mut learner = Learner::new(dict);
    let ghost goal1 = absorb_all(learner@, sv, dv, 0, n as int);
    let mut j: usize = 0;
    while j < n
        invariant
            j <= n,
            n <= src@.len(),
            n <= dst@.len(),
            sv == words_view(src@),
            dv == words_view(dst@),
            goal1 is Some,
            absorb_all(learner@, sv, dv, j as int, n as int) == goal1,
        decreases n - j,
    {
        proof {
            assert(sv[j as int] == src@[j as int]@);
            assert(dv[j as int] == dst@[j as int]@);
        }
        learner.absorb(src[j], dst[j]);
        j = j + 1;
    }
    let ghost goal2 = refine_all(learner@, sv, dv, 0, n as int);
    let mut j: usize = 0;
    while j < n
        invariant
            j <= n,
            n <= src@.len(),
            n <= dst@.len(),
            sv == words_view(src@),
            dv == words_view(dst@),
            goal2 is Some,
            refine_all(learner@, sv, dv, j as int, n as int) == goal2,
        decreases n - j,
    {
        proof {
            assert(sv[j as int] == src@[j as int]@);
            assert(dv[j as int] == dst@[j as int]@);
        }
        learner.refine(src[j], dst[j]);
        j = j + 1;
    }
    let lines = learner.report();
    let all = all_known_exec(&dst, &learner.vocab_rev);
    (lines, all)
}

} // verus!
