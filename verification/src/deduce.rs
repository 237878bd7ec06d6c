//! Deducing new rules for the phrases that a sentence leaves unexplained.
use vstd::prelude::*;
use crate::phrase::{
    book_view, match_completes, match_outcome, match_phrase, match_result_view, pair_view,
    rule_view, BookView, PairView, Phrase, PhraseView, ReadyView, Rule, RuleBook,
};
use crate::table::{
    contains_num, dict_view, distinct_nums, find_key, find_num, lemma_find_key_same_keys,
    lemma_find_num_found, lemma_find_num_same_keys, lemma_put_num, names_keyed, position_of_name,
    position_of_num, put_num, str_eq, word_get, word_lookup, words_from, words_view, DictView,
};

verus! {

/// A deduced rule: the slot number of the rule it was deduced for, the part
/// of speech of that slot, and the rule pair.
pub type EntryView = (usize, (Seq<char>, (Seq<PhraseView>, Seq<PhraseView>)));

/// The deduced rules of a source sentence, by slot number.
pub type Deduced<'v> = Vec<(usize, (String, (Rule<'v>, Rule<'v>)))>;

pub open spec fn entry_view(e: (usize, (String, (Rule, Rule)))) -> EntryView {
    (e.0, (e.1.0@, (rule_view(e.1.1.0), rule_view(e.1.1.1))))
}

pub open spec fn entries_view(s: Seq<(usize, (String, (Rule, Rule)))>) -> Seq<EntryView> {
    s.map_values(|e: (usize, (String, (Rule, Rule)))| entry_view(e))
}

/// What the matcher does on these inputs: `None` where it does not come
/// back (or panics).
pub open spec fn call_match(
    phrase: Seq<Seq<char>>,
    part: Seq<char>,
    rules: BookView,
    dict: DictView,
) -> Option<Result<(int, ReadyView), ()>> {
    if match_completes(phrase, part, rules, dict) {
        Some(match_outcome(phrase, part, rules, dict))
    } else {
        None
    }
}

/// `acc` followed by a slot for each word from `q` on, numbered from the
/// position `from` and typed by the dictionary; `None` where a word is not
/// in the dictionary.
pub open spec fn tag_rest(
    words: Seq<Seq<char>>,
    from: int,
    q: int,
    dict: DictView,
    acc: Seq<PhraseView>,
) -> Option<Seq<PhraseView>>
    decreases words.len() - q,
{
    if q < 0 || q >= words.len() {
        Some(acc)
    } else {
        match word_get(dict, words[q]) {
            None => None,
            Some(c) => tag_rest(
                words,
                from,
                q + 1,
                dict,
                acc.push(PhraseView::Template((q - from) as usize, c)),
            ),
        }
    }
}

/// Like `tag_rest`, but stopping at the first word from which the words can
/// be read as a phrase of `part`.
pub open spec fn scan_to_phrase(
    words: Seq<Seq<char>>,
    from: int,
    q: int,
    part: Seq<char>,
    rules: BookView,
    dict: DictView,
    acc: Seq<PhraseView>,
) -> Option<Seq<PhraseView>>
    decreases words.len() - q,
{
    if q < 0 || q >= words.len() {
        Some(acc)
    } else {
        match call_match(words.skip(q), part, rules, dict) {
            None => None,
            Some(Ok(_)) => Some(acc),
            Some(Err(())) => match word_get(dict, words[q]) {
                None => None,
                Some(c) => scan_to_phrase(
                    words,
                    from,
                    q + 1,
                    part,
                    rules,
                    dict,
                    acc.push(PhraseView::Template((q - from) as usize, c)),
                ),
            },
        }
    }
}

/// The scan for the words of a slot stops at the first position from which
/// the rest of the sentence reads as a phrase of the next slot's part, or at
/// the end: every word it passes fails to start such a phrase and gets a
/// slot, numbered from the scan's start and typed by the dictionary; what
/// was there before is kept in front.
pub proof fn lemma_scan_to_phrase_stops(
    words: Seq<Seq<char>>,
    from: int,
    q: int,
    part: Seq<char>,
    rules: BookView,
    dict: DictView,
    acc: Seq<PhraseView>,
)
    requires
        0 <= from <= q <= words.len(),
    ensures
        scan_to_phrase(words, from, q, part, rules, dict, acc) matches Some(t) ==> {
            &&& acc.len() <= t.len()
            &&& q + (t.len() - acc.len()) <= words.len()
            &&& t.subrange(0, acc.len() as int) == acc
            &&& forall|p: int|
                #![trigger words[p]]
                q <= p < q + (t.len() - acc.len()) ==> {
                    &&& call_match(words.skip(p), part, rules, dict) == Some(Err::<(int, ReadyView), ()>(()))
                    &&& word_get(dict, words[p]) is Some
                    &&& t[acc.len() + (p - q)] == PhraseView::Template((p - from) as usize, word_get(dict, words[p]).unwrap())
                }
            &&& q + (t.len() - acc.len()) == words.len() || call_match(
                words.skip(q + (t.len() - acc.len())),
                part,
                rules,
                dict,
            ) matches Some(Ok(_))
        },
    decreases words.len() - q,
{
    if q < words.len() {
        let here = call_match(words.skip(q), part, rules, dict);
        match here {
            Some(Err(())) => match word_get(dict, words[q]) {
                Some(c) => {
                    let acc1 = acc.push(PhraseView::Template((q - from) as usize, c));
                    lemma_scan_to_phrase_stops(words, from, q + 1, part, rules, dict, acc1);
                    match scan_to_phrase(words, from, q + 1, part, rules, dict, acc1) {
                        Some(t) => {
                            assert(t.subrange(0, acc1.len() as int) == acc1);
                            assert(t.subrange(0, acc.len() as int) =~= acc) by {
                                assert forall|i: int| 0 <= i < acc.len() implies t[i] == acc[i] by {
                                    assert(t.subrange(0, acc1.len() as int)[i] == acc1[i]);
                                }
                            }
                            assert(t[acc.len() as int] == acc1[acc.len() as int]) by {
                                assert(t.subrange(0, acc1.len() as int)[acc.len() as int] == acc1[acc.len() as int]);
                            }
                            assert forall|p: int|
                                #![trigger words[p]]
                                q <= p < q + (t.len() - acc.len()) implies {
                                    &&& call_match(words.skip(p), part, rules, dict) == Some(Err::<(int, ReadyView), ()>(()))
                                    &&& word_get(dict, words[p]) is Some
                                    &&& t[acc.len() + (p - q)] == PhraseView::Template((p - from) as usize, word_get(dict, words[p]).unwrap())
                                } by {
                                if p > q {
                                    assert(q + 1 <= p < (q + 1) + (t.len() - acc1.len()));
                                }
                            }
                        },
                        None => {},
                    }
                },
                None => {},
            },
            _ => {
                assert(acc.subrange(0, acc.len() as int) =~= acc);
            },
        }
    } else {
        assert(acc.subrange(0, acc.len() as int) =~= acc);
    }
}

/// Like `tag_rest`, but stopping at the first occurrence of the word `v`.
pub open spec fn scan_to_word(
    words: Seq<Seq<char>>,
    from: int,
    q: int,
    v: Seq<char>,
    dict: DictView,
    acc: Seq<PhraseView>,
) -> Option<Seq<PhraseView>>
    decreases words.len() - q,
{
    if q < 0 || q >= words.len() {
        Some(acc)
    } else if words[q] == v {
        Some(acc)
    } else {
        match word_get(dict, words[q]) {
            None => None,
            Some(c) => scan_to_word(
                words,
                from,
                q + 1,
                v,
                dict,
                acc.push(PhraseView::Template((q - from) as usize, c)),
            ),
        }
    }
}

/// One element of the source rule against the sentence at `index`: the new
/// index and deduced entries, `None` where the deduction would panic,
/// overflow or run a matcher that does not come back.
pub open spec fn deduce_step(
    words: Seq<Seq<char>>,
    rule: Seq<PhraseView>,
    progress: int,
    index: int,
    ret: Seq<EntryView>,
    rules: BookView,
    dict: DictView,
) -> Option<(int, Seq<EntryView>)> {
    if progress < 0 || progress >= rule.len() {
        None
    } else {
        match rule[progress] {
            PhraseView::Voca(v) => {
                if index < 0 || index >= words.len() {
                    None
                } else if words[index] == v {
                    Some((index + 1, ret))
                } else {
                    Some((index, ret))
                }
            },
            PhraseView::Template(num, p) => {
                if progress == rule.len() - 1 {
                    if words.len() == 0 {
                        None
                    } else if index < words.len() - 1 {
                        match tag_rest(words, index, index, dict, Seq::empty()) {
                            None => None,
                            Some(t) => Some(
                                (words.len() as int, put_num(ret, num, (p, (t, Seq::empty())))),
                            ),
                        }
                    } else if index + 1 > usize::MAX {
                        None
                    } else {
                        Some((index + 1, ret))
                    }
                } else if index < 0 || index > words.len() {
                    None
                } else {
                    match call_match(words.skip(index), p, rules, dict) {
                        None => None,
                        Some(w) => {
                            let n: int = match w {
                                Ok((n, _)) => n,
                                Err(()) => 0,
                            };
                            let t0: Seq<PhraseView> = match w {
                                Ok(_) => seq![PhraseView::Template(0, p)],
                                Err(()) => Seq::empty(),
                            };
                            let index1 = index + n;
                            if index1 > usize::MAX || index1 >= words.len() {
                                None
                            } else {
                                let next_word = words[index1];
                                match rule[progress + 1] {
                                    PhraseView::Template(_, p2) => match word_get(dict, next_word) {
                                        None => None,
                                        Some(c) => if c == p2 || n >= 2 {
                                            Some((index1, ret))
                                        } else {
                                            match scan_to_phrase(words, index1, index1, p2, rules, dict, t0) {
                                                None => None,
                                                Some(t) => Some(
                                                    (
                                                        index1 + t.len() - t0.len(),
                                                        put_num(ret, num, (p, (t, Seq::empty()))),
                                                    ),
                                                ),
                                            }
                                        },
                                    },
                                    PhraseView::Voca(v) => if next_word == v {
                                        Some((index1, ret))
                                    } else {
                                        match scan_to_word(words, index1, index1, v, dict, t0) {
                                            None => None,
                                            Some(t) => Some(
                                                (
                                                    index1 + t.len() - t0.len(),
                                                    put_num(ret, num, (p, (t, Seq::empty()))),
                                                ),
                                            ),
                                        }
                                    },
                                }
                            }
                        },
                    }
                }
            },
        }
    }
}

/// The elements of the source rule from `progress` on.
pub open spec fn deduce_patterns(
    words: Seq<Seq<char>>,
    rule: Seq<PhraseView>,
    progress: int,
    index: int,
    ret: Seq<EntryView>,
    rules: BookView,
    dict: DictView,
) -> Option<Seq<EntryView>>
    decreases rule.len() - progress,
{
    if progress < 0 || progress >= rule.len() {
        Some(ret)
    } else {
        match deduce_step(words, rule, progress, index, ret, rules, dict) {
            None => None,
            Some((index1, ret1)) => deduce_patterns(words, rule, progress + 1, index1, ret1, rules, dict),
        }
    }
}

/// The rule pairs from the `j`th on, until one deduces something.
pub open spec fn try_pairs(
    words: Seq<Seq<char>>,
    ruleset: Seq<PairView>,
    j: int,
    rules: BookView,
    dict: DictView,
) -> Option<Result<(Seq<EntryView>, (Seq<PhraseView>, Seq<PhraseView>)), ()>>
    decreases ruleset.len() - j,
{
    if j < 0 || j >= ruleset.len() {
        Some(Err(()))
    } else {
        match deduce_patterns(words, ruleset[j].0, 0, 0, Seq::empty(), rules, dict) {
            None => None,
            Some(ret) => if ret.len() > 0 {
                Some(Ok((ret, ruleset[j])))
            } else {
                try_pairs(words, ruleset, j + 1, rules, dict)
            },
        }
    }
}

/// What `deduce_rule` gives: `None` where it would panic, overflow or run a
/// matcher that does not come back.
pub open spec fn deduce_spec(
    words: Seq<Seq<char>>,
    part: Seq<char>,
    rules: BookView,
    dict: DictView,
) -> Option<Result<(Seq<EntryView>, (Seq<PhraseView>, Seq<PhraseView>)), ()>> {
    match find_key(rules, part, 0) {
        None => Some(Err(())),
        Some(k) => try_pairs(words, rules[k].1, 0, rules, dict),
    }
}


/// Deduced entries as `deduce_rule` builds them for the source rule
/// `rule`: each slot number once, each with the part of a slot of `rule`
/// of that number, and with an empty target rule.
pub open spec fn entries_fit(ret: Seq<EntryView>, rule: Seq<PhraseView>) -> bool {
    &&& distinct_nums(ret)
    &&& forall|j: int|
        0 <= j < ret.len() ==> (#[trigger] ret[j]).1.1.1.len() == 0 && rule.contains(
            PhraseView::Template(ret[j].0, ret[j].1.0),
        )
}

proof fn lemma_put_fit(ret: Seq<EntryView>, rule: Seq<PhraseView>, num: usize, e: (Seq<char>, (Seq<PhraseView>, Seq<PhraseView>)))
    requires
        entries_fit(ret, rule),
        e.1.1.len() == 0,
        rule.contains(PhraseView::Template(num, e.0)),
    ensures
        entries_fit(put_num(ret, num, e), rule),
{
    lemma_put_num(ret, num, e);
    let r = put_num(ret, num, e);
    assert forall|j: int| 0 <= j < r.len() implies (#[trigger] r[j]).1.1.1.len() == 0 && rule.contains(
        PhraseView::Template(r[j].0, r[j].1.0),
    ) by {
        if r[j] != (num, e) {
            assert(ret.contains(r[j]));
            let i = choose|i: int| 0 <= i < ret.len() && ret[i] == r[j];
            assert(ret[i].1.1.1.len() == 0);
        }
    }
}

proof fn lemma_deduce_patterns_fit(
    words: Seq<Seq<char>>,
    rule: Seq<PhraseView>,
    progress: int,
    index: int,
    ret: Seq<EntryView>,
    rules: BookView,
    dict: DictView,
)
    requires
        entries_fit(ret, rule),
    ensures
        deduce_patterns(words, rule, progress, index, ret, rules, dict) matches Some(r) ==> entries_fit(r, rule),
    decreases rule.len() - progress,
{
    if 0 <= progress < rule.len() {
        match rule[progress] {
            PhraseView::Template(num, p) => {
                assert(rule.contains(PhraseView::Template(num, p)));
                assert forall|t: Seq<PhraseView>| #![all_triggers] entries_fit(put_num(ret, num, (p, (t, Seq::empty()))), rule) by {
                    lemma_put_fit(ret, rule, num, (p, (t, Seq::empty())));
                }
            },
            PhraseView::Voca(_) => {},
        }
        match deduce_step(words, rule, progress, index, ret, rules, dict) {
            Some((index1, ret1)) => {
                lemma_deduce_patterns_fit(words, rule, progress + 1, index1, ret1, rules, dict);
            },
            None => {},
        }
    }
}

proof fn lemma_try_pairs_fit(
    words: Seq<Seq<char>>,
    ruleset: Seq<PairView>,
    j: int,
    rules: BookView,
    dict: DictView,
)
    requires
        0 <= j,
    ensures
        try_pairs(words, ruleset, j, rules, dict) matches Some(Ok((ret, pair))) ==> {
            &&& ret.len() > 0
            &&& entries_fit(ret, pair.0)
            &&& exists|i: int| 0 <= i < ruleset.len() && ruleset[i] == pair
        },
    decreases ruleset.len() - j,
{
    if j < ruleset.len() {
        let rule = ruleset[j].0;
        lemma_deduce_patterns_fit(words, rule, 0, 0, Seq::empty(), rules, dict);
        lemma_try_pairs_fit(words, ruleset, j + 1, rules, dict);
    }
}

/// Binds `num` to `e` in the deduced entries.
fn put_deduced<'v>(ret: &mut Deduced<'v>, num: usize, e: (String, (Rule<'v>, Rule<'v>)))
    ensures
        entries_view(final(ret)@) == put_num(entries_view(old(ret)@), num, entry_view((num, e)).1),
{
    let ghost old_s = ret@;
    let ghost ev = entry_view((num, e));
    proof {
        lemma_find_num_same_keys(old_s, entries_view(old_s), num, 0);
    }
    match position_of_num(ret, num) {
        Some(i) => {
            ret.set(i, (num, e));
            assert(entries_view(ret@) =~= entries_view(old_s).update(i as int, ev));
        },
        None => {
            ret.push((num, e));
            assert(entries_view(ret@) =~= entries_view(old_s).push(ev));
        },
    }
}

/// Appends a slot for each word from `from` on, typed by the dictionary.
fn tag_words<'v>(words: &Vec<&'v str>, from: usize, dictionary: &Vec<(&str, &str)>, tmpl: &mut Rule<'v>)
    requires
        from <= words@.len(),
        tag_rest(words_view(words@), from as int, from as int, dict_view(dictionary@), rule_view(*old(tmpl))) is Some,
    ensures
        tag_rest(words_view(words@), from as int, from as int, dict_view(dictionary@), rule_view(*old(tmpl))) == Some(
            rule_view(*final(tmpl)),
        ),
{
    let ghost goal = tag_rest(words_view(words@), from as int, from as int, dict_view(dictionary@), rule_view(*tmpl));
    let mut q = from;
    while q < words.len()
        invariant
            from <= q <= words@.len(),
            goal is Some,
            tag_rest(words_view(words@), from as int, q as int, dict_view(dictionary@), rule_view(*tmpl)) == goal,
        decreases words@.len() - q,
    {
        let ghost before = tmpl@;
        match word_lookup(dictionary, words[q]) {
            None => {
                return ;
            },
            Some(c) => {
                tmpl.push(Phrase::Template((q - from, c.to_owned())));
            },
        }
        assert(rule_view(*tmpl) =~= before.map_values(|p: Phrase| p@).push(tmpl@.last()@));
        q = q + 1;
    }
}

/// Appends a slot for each word from `from` on up to the first word from
/// which the words read as a phrase of `part`; returns how many it added.
fn scan_phrase<'h, 'v>(
    words: &Vec<&'v str>,
    from: usize,
    part: &str,
    rules: &RuleBook<'h, 'v>,
    dictionary: &Vec<(&str, &str)>,
    tmpl: &mut Rule<'v>,
) -> (count: usize)
    requires
        from <= words@.len(),
        scan_to_phrase(words_view(words@), from as int, from as int, part@, book_view(rules@), dict_view(dictionary@), rule_view(*old(tmpl))) is Some,
    ensures
        scan_to_phrase(words_view(words@), from as int, from as int, part@, book_view(rules@), dict_view(dictionary@), rule_view(*old(tmpl)))
            == Some(rule_view(*final(tmpl))),
        count == final(tmpl)@.len() - old(tmpl)@.len(),
        from + count <= words@.len(),
        forall|p: int|
            #![trigger words@[p]]
            from <= p < from + count ==> {
                &&& call_match(words_view(words@).skip(p), part@, book_view(rules@), dict_view(dictionary@))
                    == Some(Err::<(int, ReadyView), ()>(()))
                &&& word_get(dict_view(dictionary@), words@[p]@) is Some
                &&& rule_view(*final(tmpl))[old(tmpl)@.len() + (p - from)] == PhraseView::Template(
                    (p - from) as usize,
                    word_get(dict_view(dictionary@), words@[p]@).unwrap(),
                )
            },
        from + count == words@.len() || call_match(
            words_view(words@).skip(from + count),
            part@,
            book_view(rules@),
            dict_view(dictionary@),
        ) matches Some(Ok(_)),
{
    proof {
        lemma_scan_to_phrase_stops(
            words_view(words@),
            from as int,
            from as int,
            part@,
            book_view(rules@),
            dict_view(dictionary@),
            rule_view(*tmpl),
        );
    }
    let ghost goal = scan_to_phrase(words_view(words@), from as int, from as int, part@, book_view(rules@), dict_view(dictionary@), rule_view(*tmpl));
    let ghost len0 = tmpl@.len();
    let mut q = from;
    while q < words.len()
        invariant
            from <= q <= words@.len(),
            goal is Some,
            tmpl@.len() == len0 + (q - from),
            scan_to_phrase(words_view(words@), from as int, q as int, part@, book_view(rules@), dict_view(dictionary@), rule_view(*tmpl)) == goal,
        ensures
            from <= q <= words@.len(),
            tmpl@.len() == len0 + (q - from),
            goal == Some(rule_view(*tmpl)),
        decreases words@.len() - q,
    {
        let ghost before = tmpl@;
        let rest = words_from(words, q);
        let w = match_phrase(&rest, part, rules, dictionary);
        if w.is_ok() {
            break;
        }
        match word_lookup(dictionary, words[q]) {
            None => {
                return 0;
            },
            Some(c) => {
                tmpl.push(Phrase::Template((q - from, c.to_owned())));
            },
        }
        assert(rule_view(*tmpl) =~= before.map_values(|p: Phrase| p@).push(tmpl@.last()@));
        q = q + 1;
    }
    q - from
}

/// Appends a slot for each word from `from` on up to the first occurrence of
/// `v`; returns how many it added.
fn scan_word<'v>(
    words: &Vec<&'v str>,
    from: usize,
    v: &str,
    dictionary: &Vec<(&str, &str)>,
    tmpl: &mut Rule<'v>,
) -> (count: usize)
    requires
        from <= words@.len(),
        scan_to_word(words_view(words@), from as int, from as int, v@, dict_view(dictionary@), rule_view(*old(tmpl))) is Some,
    ensures
        scan_to_word(words_view(words@), from as int, from as int, v@, dict_view(dictionary@), rule_view(*old(tmpl)))
            == Some(rule_view(*final(tmpl))),
        count == final(tmpl)@.len() - old(tmpl)@.len(),
        from + count <= words@.len(),
{
    let ghost goal = scan_to_word(words_view(words@), from as int, from as int, v@, dict_view(dictionary@), rule_view(*tmpl));
    let ghost len0 = tmpl@.len();
    let mut q = from;
    while q < words.len()
        invariant
            from <= q <= words@.len(),
            goal is Some,
            tmpl@.len() == len0 + (q - from),
            scan_to_word(words_view(words@), from as int, q as int, v@, dict_view(dictionary@), rule_view(*tmpl)) == goal,
        ensures
            from <= q <= words@.len(),
            tmpl@.len() == len0 + (q - from),
            goal == Some(rule_view(*tmpl)),
        decreases words@.len() - q,
    {
        let ghost before = tmpl@;
        if str_eq(words[q], v) {
            break;
        }
        match word_lookup(dictionary, words[q]) {
            None => {
                return 0;
            },
            Some(c) => {
                tmpl.push(Phrase::Template((q - from, c.to_owned())));
            },
        }
        assert(rule_view(*tmpl) =~= before.map_values(|p: Phrase| p@).push(tmpl@.last()@));
        q = q + 1;
    }
    q - from
}

/// One element of the source rule against the sentence at `index`;
/// returns the new index.
fn deduce_one<'h, 'v>(
    words: &Vec<&'v str>,
    rule: &Rule<'v>,
    progress: usize,
    index: usize,
    ret: &mut Deduced<'v>,
    rules: &RuleBook<'h, 'v>,
    dictionary: &Vec<(&str, &str)>,
) -> (new_index: usize)
    requires
        deduce_step(words_view(words@), rule_view(*rule), progress as int, index as int, entries_view(old(ret)@), book_view(rules@), dict_view(dictionary@)) is Some,
    ensures
        deduce_step(words_view(words@), rule_view(*rule), progress as int, index as int, entries_view(old(ret)@), book_view(rules@), dict_view(dictionary@))
            == Some((new_index as int, entries_view(final(ret)@))),
{
    let ghost rv = rule_view(*rule);
    let n_words = words.len();
    assert(n_words == words@.len());
    assert(rv[progress as int] == rule@[progress as int]@);
    match &rule[progress] {
        Phrase::Voca(v) => {
            if str_eq(words[index], v) {
                index + 1
            } else {
                index
            }
        },
        Phrase::Template((num, p)) => {
            let mut template: Rule<'v> = Vec::new();
            if progress == rule.len() - 1 {
                if index < words.len() - 1 {
                    assert(rule_view(template) =~= Seq::empty());
                    tag_words(words, index, dictionary, &mut template);
                    let i = words.len() - index;
                    let second: Rule<'v> = Vec::new();
                    assert(rule_view(second) =~= Seq::empty());
                    put_deduced(ret, *num, (p.clone(), (template, second)));
                    index + i
                } else {
                    index + 1
                }
            } else {
                let rest = words_from(words, index);
                let w = match_phrase(&rest, p.as_str(), rules, dictionary);
                let mut index = index;
                let mut next_phrase_len: usize = 0;
                if let Ok((n, _)) = w {
                    index = index + n;
                    next_phrase_len = n;
                    template.push(Phrase::Template((0, p.clone())));
                }
                let ghost t0 = rule_view(template);
                proof {
                    assert(t0 =~= (match match_result_view(w) {
                        Ok(_) => seq![PhraseView::Template(0, p@)],
                        Err(()) => Seq::<PhraseView>::empty(),
                    }));
                    assert(rv[progress + 1] == rule@[progress + 1]@);
                }
                let next_word = words[index];
                let next_pattern = &rule[progress + 1];
                let fits = match next_pattern {
                    Phrase::Template((_, p2)) => match word_lookup(dictionary, next_word) {
                        Some(c) => str_eq(c, p2.as_str()) || next_phrase_len >= 2,
                        None => {
                            return index;
                        },
                    },
                    Phrase::Voca(v) => str_eq(next_word, v),
                };
                if !fits {
                    let count = match next_pattern {
                        Phrase::Template((_, p2)) => scan_phrase(
                            words,
                            index,
                            p2.as_str(),
                            rules,
                            dictionary,
                            &mut template,
                        ),
                        Phrase::Voca(v) => scan_word(words, index, v, dictionary, &mut template),
                    };
                    index = index + count;
                    let second: Rule<'v> = Vec::new();
                    assert(rule_view(second) =~= Seq::empty());
                    put_deduced(ret, *num, (p.clone(), (template, second)));
                }
                index
            }
        },
    }
}

/// The entries that the source rule `rule` deduces from the sentence.
fn deduce_with<'h, 'v>(
    words: &Vec<&'v str>,
    rule: &Rule<'v>,
    rules: &RuleBook<'h, 'v>,
    dictionary: &Vec<(&str, &str)>,
) -> (ret: Deduced<'v>)
    requires
        deduce_patterns(words_view(words@), rule_view(*rule), 0, 0, Seq::empty(), book_view(rules@), dict_view(dictionary@)) is Some,
    ensures
        deduce_patterns(words_view(words@), rule_view(*rule), 0, 0, Seq::empty(), book_view(rules@), dict_view(dictionary@)) == Some(
            entries_view(ret@),
        ),
{
    let ghost goal = deduce_patterns(words_view(words@), rule_view(*rule), 0, 0, Seq::empty(), book_view(rules@), dict_view(dictionary@));
    let mut ret: Deduced<'v> = Vec::new();
    let mut index: usize = 0;
    let mut progress: usize = 0;
    assert(entries_view(ret@) =~= Seq::empty());
    while progress < rule.len()
        invariant
            progress <= rule@.len(),
            rule_view(*rule).len() == rule@.len(),
            goal is Some,
            deduce_patterns(words_view(words@), rule_view(*rule), progress as int, index as int, entries_view(ret@), book_view(rules@), dict_view(dictionary@))
                == goal,
        decreases rule@.len() - progress,
    {
        index = deduce_one(words, rule, progress, index, &mut ret, rules, dictionary);
        progress = progress + 1;
    }
    ret
}

pub open spec fn deduce_result_view(
    r: Result<(Deduced, &(Rule, Rule)), ()>,
) -> Result<(Seq<EntryView>, (Seq<PhraseView>, Seq<PhraseView>)), ()> {
    match r {
        Ok((d, pair)) => Ok((entries_view(d@), pair_view(*pair))),
        Err(()) => Err(()),
    }
}

/// Tries the rules of `part`, in order, against the source sentence
/// `words_s`; the first one for which some slot can be explained is
/// returned with the rules deduced for its slots: a slot whose phrase the
/// matcher reads gets a one-slot rule, and the words up to what the next
/// element of the rule expects get a slot each, typed by the dictionary; the
/// last slot takes the rest of the sentence.
pub fn deduce_rule<'h, 'v>(
    words_s: &Vec<&'v str>,
    part: &str,
    rules: &RuleBook<'h, 'v>,
    dictionary: &Vec<(&str, &str)>,
) -> (res: Result<(Deduced<'v>, &'h (Rule<'v>, Rule<'v>)), ()>)
    requires
        deduce_spec(words_view(words_s@), part@, book_view(rules@), dict_view(dictionary@)) is Some,
    ensures
        deduce_spec(words_view(words_s@), part@, book_view(rules@), dict_view(dictionary@)) == Some(deduce_result_view(res)),
        res matches Ok((ret, pair)) ==> {
            &&& ret@.len() > 0
            &&& entries_fit(entries_view(ret@), rule_view(pair.0))
            &&& find_key(book_view(rules@), part@, 0) matches Some(k) && book_view(rules@)[k].1.contains(pair_view(*pair))
        },
{

    proof {
        lemma_find_key_same_keys(names_keyed(rules@), book_view(rules@), part@, 0);
    }
    match position_of_name(rules, part) {
        None => Err(()),
        Some(k) => {
            let ruleset: &Vec<&'h (Rule<'v>, Rule<'v>)> = &rules[k].1;
            let mut j: usize = 0;
            while j < ruleset.len()
                invariant
                    j <= ruleset@.len(),
                    k < rules@.len(),
                    find_key(book_view(rules@), part@, 0) == Some(k as int),
                    ruleset == &rules@[k as int].1,
                    deduce_spec(words_view(words_s@), part@, book_view(rules@), dict_view(dictionary@)) is Some,
                    deduce_spec(words_view(words_s@), part@, book_view(rules@), dict_view(dictionary@)) == try_pairs(words_view(words_s@), book_view(rules@)[k as int].1, j as int, book_view(rules@), dict_view(dictionary@)),
                decreases ruleset@.len() - j,
            {
                let pair: &'h (Rule<'v>, Rule<'v>) = ruleset[j];
                let ret = deduce_with(words_s, &pair.0, rules, dictionary);
                if ret.len() > 0 {
                    proof {
                        lemma_try_pairs_fit(words_view(words_s@), book_view(rules@)[k as int].1, j as int, book_view(rules@), dict_view(dictionary@));
                    }
                    return Ok((ret, pair));
                }
                j = j + 1;
            }
            Err(())
        },
    }
}


/// A rule pair deduced for the target sentence: the part of speech, the
/// source rule that was deduced for it, and the target rule.
pub type PairEntryView = (Seq<char>, (Seq<PhraseView>, Seq<PhraseView>));

pub open spec fn pair_entries_view(s: Seq<(String, (&Rule, Rule))>) -> Seq<PairEntryView> {
    s.map_values(|e: (String, (&Rule, Rule))| (e.0@, (rule_view(*e.1.0), rule_view(e.1.1))))
}

/// `acc` followed by a slot for each slot of the source rule `t` (from the
/// `k`th element on) of part `part` whose number is not in `clear` yet;
/// each one's number is added to `clear`.
pub open spec fn mark_slots(
    t: Seq<PhraseView>,
    k: int,
    part: Seq<char>,
    clear: Seq<usize>,
    acc: Seq<PhraseView>,
) -> (Seq<PhraseView>, Seq<usize>)
    decreases t.len() - k,
{
    if k < 0 || k >= t.len() {
        (acc, clear)
    } else {
        match t[k] {
            PhraseView::Template(i, p) => if p == part && !clear.contains(i) {
                mark_slots(t, k + 1, part, clear.push(i), acc.push(PhraseView::Template(i, part)))
            } else {
                mark_slots(t, k + 1, part, clear, acc)
            },
            PhraseView::Voca(_) => mark_slots(t, k + 1, part, clear, acc),
        }
    }
}

/// Every word from `q` on: a word the dictionary knows marks the open slots
/// of its part in `t`, any other word is kept as itself.
pub open spec fn fill_all(
    words: Seq<Seq<char>>,
    q: int,
    t: Seq<PhraseView>,
    dict: DictView,
    clear: Seq<usize>,
    acc: Seq<PhraseView>,
) -> Seq<PhraseView>
    decreases words.len() - q,
{
    if q < 0 || q >= words.len() {
        acc
    } else {
        match word_get(dict, words[q]) {
            Some(part) => {
                let (a, c) = mark_slots(t, 0, part, clear, acc);
                fill_all(words, q + 1, t, dict, c, a)
            },
            None => fill_all(words, q + 1, t, dict, clear, acc.push(PhraseView::Voca(words[q]))),
        }
    }
}

/// Like `fill_all`, but stopping once `left` elements have been produced;
/// gives the elements and the position where it stopped. `None` where the
/// count would go below zero.
pub open spec fn fill_left(
    words: Seq<Seq<char>>,
    q: int,
    t: Seq<PhraseView>,
    dict: DictView,
    clear: Seq<usize>,
    left: int,
    acc: Seq<PhraseView>,
) -> Option<(Seq<PhraseView>, int)>
    decreases words.len() - q,
{
    if q < 0 || q >= words.len() || left == 0 {
        Some((acc, q))
    } else {
        match word_get(dict, words[q]) {
            Some(part) => {
                let (a, c) = mark_slots(t, 0, part, clear, acc);
                if a.len() - acc.len() > left {
                    None
                } else {
                    fill_left(words, q + 1, t, dict, c, left - (a.len() - acc.len()), a)
                }
            },
            None => fill_left(
                words,
                q + 1,
                t,
                dict,
                clear,
                left - 1,
                acc.push(PhraseView::Voca(words[q])),
            ),
        }
    }
}

/// Like `fill_all`, but stopping at the first occurrence of the word `v`,
/// and with every word looked up in the dictionary (`None` where one is not
/// there); gives the elements and the position where it stopped.
pub open spec fn fill_to_word(
    words: Seq<Seq<char>>,
    q: int,
    v: Seq<char>,
    t: Seq<PhraseView>,
    dict: DictView,
    clear: Seq<usize>,
    acc: Seq<PhraseView>,
) -> Option<(Seq<PhraseView>, int)>
    decreases words.len() - q,
{
    if q < 0 || q >= words.len() || words[q] == v {
        Some((acc, q))
    } else {
        match word_get(dict, words[q]) {
            None => None,
            Some(part) => {
                let (a, c) = mark_slots(t, 0, part, clear, acc);
                fill_to_word(words, q + 1, v, t, dict, c, a)
            },
        }
    }
}

/// One element of the target rule against the target sentence at `index`:
/// `Some(Err(()))` where a word of the rule is not where it should be.
pub open spec fn pair_step(
    words: Seq<Seq<char>>,
    rule: Seq<PhraseView>,
    progress: int,
    index: int,
    ret: Seq<PairEntryView>,
    deduced: Seq<EntryView>,
    rules: BookView,
    dict: DictView,
) -> Option<Result<(int, Seq<PairEntryView>), ()>> {
    if progress < 0 || progress >= rule.len() {
        None
    } else {
        match rule[progress] {
            PhraseView::Voca(v) => {
                if index < 0 || index >= words.len() {
                    None
                } else if words[index] != v {
                    Some(Err(()))
                } else {
                    Some(Ok((index + 1, ret)))
                }
            },
            PhraseView::Template(num, p) => match find_num(deduced, num, 0) {
                None => Some(Ok((index, ret))),
                Some(e) => {
                    let t = deduced[e].1.1.0;
                    if progress == rule.len() - 1 {
                        if words.len() == 0 {
                            None
                        } else if index < words.len() - 1 {
                            let tmpl = fill_all(words, index, t, dict, Seq::empty(), Seq::empty());
                            Some(Ok((words.len() as int, ret.push((p, (t, tmpl))))))
                        } else if index + 1 > usize::MAX {
                            None
                        } else {
                            Some(Ok((index + 1, ret)))
                        }
                    } else {
                        match call_match(words, p, rules, dict) {
                            None => None,
                            Some(w) => {
                                let n: int = match w {
                                    Ok((n, _)) => n,
                                    Err(()) => 0,
                                };
                                let t0: Seq<PhraseView> = match w {
                                    Ok(_) => seq![PhraseView::Template(0, p)],
                                    Err(()) => Seq::empty(),
                                };
                                let index1 = index + n;
                                if index1 > usize::MAX || index1 < 0 || index1 >= words.len() {
                                    None
                                } else {
                                    let next_word = words[index1];
                                    match rule[progress + 1] {
                                        PhraseView::Template(_, p2) => match word_get(dict, next_word) {
                                            None => None,
                                            Some(c) => if c == p2 || n >= 2 {
                                                Some(Ok((index1, ret)))
                                            } else {
                                                match fill_left(words, index1, t, dict, Seq::empty(), t.len() as int, t0) {
                                                    None => None,
                                                    Some((tmpl, q)) => Some(Ok((q, ret.push((p, (t, tmpl)))))),
                                                }
                                            },
                                        },
                                        PhraseView::Voca(v) => if next_word == v {
                                            Some(Ok((index1, ret)))
                                        } else {
                                            match fill_to_word(words, index1, v, t, dict, Seq::empty(), t0) {
                                                None => None,
                                                Some((tmpl, q)) => Some(Ok((q, ret.push((p, (t, tmpl)))))),
                                            }
                                        },
                                    }
                                }
                            },
                        }
                    }
                },
            },
        }
    }
}

/// The elements of the target rule from `progress` on.
pub open spec fn pair_patterns(
    words: Seq<Seq<char>>,
    rule: Seq<PhraseView>,
    progress: int,
    index: int,
    ret: Seq<PairEntryView>,
    deduced: Seq<EntryView>,
    rules: BookView,
    dict: DictView,
) -> Option<Result<Seq<PairEntryView>, ()>>
    decreases rule.len() - progress,
{
    if progress < 0 || progress >= rule.len() {
        Some(Ok(ret))
    } else {
        match pair_step(words, rule, progress, index, ret, deduced, rules, dict) {
            None => None,
            Some(Err(())) => Some(Err(())),
            Some(Ok((index1, ret1))) => pair_patterns(words, rule, progress + 1, index1, ret1, deduced, rules, dict),
        }
    }
}

/// What `deduce_pair_rule` gives: `None` where it would panic, overflow or
/// run a matcher that does not come back.
pub open spec fn pair_spec(
    words: Seq<Seq<char>>,
    rule: (Seq<PhraseView>, Seq<PhraseView>),
    deduced: Seq<EntryView>,
    rules: BookView,
    dict: DictView,
) -> Option<Result<Seq<PairEntryView>, ()>> {
    pair_patterns(words, rule.1, 0, 0, Seq::empty(), deduced, rules, dict)
}


/// What `deduce_pair_rule` builds: each entry's part is that of a slot of
/// the target rule `rule1` whose number has a deduced source rule, and the
/// entry's source rule is that deduced rule.
pub open spec fn pair_entries_fit(ret: Seq<PairEntryView>, rule1: Seq<PhraseView>, deduced: Seq<EntryView>) -> bool {
    forall|j: int|
        0 <= j < ret.len() ==> exists|e: int|
            0 <= e < deduced.len() && rule1.contains(PhraseView::Template(deduced[e].0, (#[trigger] ret[j]).0))
                && ret[j].1.0 == deduced[e].1.1.0
}

proof fn lemma_pair_patterns_fit(
    words: Seq<Seq<char>>,
    rule: Seq<PhraseView>,
    progress: int,
    index: int,
    ret: Seq<PairEntryView>,
    deduced: Seq<EntryView>,
    rules: BookView,
    dict: DictView,
)
    requires
        pair_entries_fit(ret, rule, deduced),
    ensures
        pair_patterns(words, rule, progress, index, ret, deduced, rules, dict) matches Some(Ok(r))
            ==> pair_entries_fit(r, rule, deduced),
    decreases rule.len() - progress,
{
    if 0 <= progress < rule.len() {
        match rule[progress] {
            PhraseView::Template(num, p) => {
                lemma_find_num_found(deduced, num, 0);
                match find_num(deduced, num, 0) {
                    Some(e) => {
                        assert(rule.contains(PhraseView::Template(num, p)));
                        let t = deduced[e].1.1.0;
                        assert forall|x: Seq<PhraseView>| #![all_triggers] pair_entries_fit(ret.push((p, (t, x))), rule, deduced) by {
                            let r = ret.push((p, (t, x)));
                            assert forall|j: int| 0 <= j < r.len() implies exists|e2: int|
                                0 <= e2 < deduced.len() && rule.contains(PhraseView::Template(deduced[e2].0, (#[trigger] r[j]).0))
                                    && r[j].1.0 == deduced[e2].1.1.0 by {
                                if j < ret.len() {
                                    assert(r[j] == ret[j]);
                                } else {
                                    assert(r[j] == (p, (t, x)));
                                    assert(deduced[e].0 == num);
                                }
                            }
                        }
                    },
                    None => {},
                }
            },
            PhraseView::Voca(_) => {},
        }
        match pair_step(words, rule, progress, index, ret, deduced, rules, dict) {
            Some(Ok((index1, ret1))) => {
                lemma_pair_patterns_fit(words, rule, progress + 1, index1, ret1, deduced, rules, dict);
            },
            _ => {},
        }
    }
}

/// Appends a slot for each open slot of `t` of part `part`, closing it.
fn mark_exec<'v>(t: &Rule<'v>, part: &str, clear: &mut Vec<usize>, tmpl: &mut Rule<'v>)
    ensures
        mark_slots(rule_view(*t), 0, part@, old(clear)@, rule_view(*old(tmpl))) == (
            rule_view(*final(tmpl)),
            final(clear)@,
        ),
        final(tmpl)@.len() >= old(tmpl)@.len(),
{
    let ghost len0 = tmpl@.len();
    let ghost tv = rule_view(*t);
    let ghost goal = mark_slots(tv, 0, part@, clear@, rule_view(*tmpl));
    let mut k: usize = 0;
    while k < t.len()
        invariant
            k <= t@.len(),
            tv == rule_view(*t),
            tmpl@.len() >= len0,
            mark_slots(tv, k as int, part@, clear@, rule_view(*tmpl)) == goal,
        decreases t@.len() - k,
    {
        let ghost before = tmpl@;
        assert(tv[k as int] == t@[k as int]@);
        match &t[k] {
            Phrase::Template((i, p)) => {
                if str_eq(p.as_str(), part) && !contains_num(clear, *i) {
                    tmpl.push(Phrase::Template((*i, part.to_owned())));
                    clear.push(*i);
                    assert(rule_view(*tmpl) =~= before.map_values(|p: Phrase| p@).push(tmpl@.last()@));
                }
            },
            Phrase::Voca(_) => {},
        }
        k = k + 1;
    }
}

/// The elements that `fill_all` gives from `from` on, appended to `tmpl`.
fn fill_all_exec<'v>(
    words: &Vec<&'v str>,
    from: usize,
    t: &Rule<'v>,
    dictionary: &Vec<(&str, &str)>,
    tmpl: &mut Rule<'v>,
)
    ensures
        fill_all(words_view(words@), from as int, rule_view(*t), dict_view(dictionary@), Seq::empty(), rule_view(*old(tmpl)))
            == rule_view(*final(tmpl)),
{
    let ghost goal = fill_all(words_view(words@), from as int, rule_view(*t), dict_view(dictionary@), Seq::empty(), rule_view(*tmpl));
    let mut clear: Vec<usize> = Vec::new();
    let mut q = from;
    while q < words.len()
        invariant
            from <= q,
            fill_all(words_view(words@), q as int, rule_view(*t), dict_view(dictionary@), clear@, rule_view(*tmpl)) == goal,
        decreases words@.len() - q,
    {
        let ghost before = tmpl@;
        match word_lookup(dictionary, words[q]) {
            Some(part) => {
                mark_exec(t, part, &mut clear, tmpl);
            },
            None => {
                tmpl.push(Phrase::Voca(words[q]));
                assert(rule_view(*tmpl) =~= before.map_values(|p: Phrase| p@).push(tmpl@.last()@));
            },
        }
        q = q + 1;
    }
}

/// The elements that `fill_left` gives, appended to `tmpl`; returns where it
/// stopped.
fn fill_left_exec<'v>(
    words: &Vec<&'v str>,
    from: usize,
    t: &Rule<'v>,
    dictionary: &Vec<(&str, &str)>,
    tmpl: &mut Rule<'v>,
) -> (stop: usize)
    requires
        fill_left(words_view(words@), from as int, rule_view(*t), dict_view(dictionary@), Seq::empty(), t@.len() as int, rule_view(*old(tmpl))) is Some,
    ensures
        fill_left(words_view(words@), from as int, rule_view(*t), dict_view(dictionary@), Seq::empty(), t@.len() as int, rule_view(*old(tmpl)))
            == Some((rule_view(*final(tmpl)), stop as int)),
{
    let ghost goal = fill_left(words_view(words@), from as int, rule_view(*t), dict_view(dictionary@), Seq::empty(), t@.len() as int, rule_view(*tmpl));
    let mut clear: Vec<usize> = Vec::new();
    let mut left: usize = t.len();
    let mut q = from;
    while q < words.len()
        invariant
            goal is Some,
            fill_left(words_view(words@), q as int, rule_view(*t), dict_view(dictionary@), clear@, left as int, rule_view(*tmpl)) == goal,
        ensures
            goal == Some((rule_view(*tmpl), q as int)),
        decreases words@.len() - q,
    {
        if left == 0 {
            break;
        }
        let ghost before = tmpl@;
        match word_lookup(dictionary, words[q]) {
            Some(part) => {
                let len0 = tmpl.len();
                mark_exec(t, part, &mut clear, tmpl);
                let added = tmpl.len() - len0;
                if added > left {
                    return q;
                }
                left = left - added;
            },
            None => {
                tmpl.push(Phrase::Voca(words[q]));
                assert(rule_view(*tmpl) =~= before.map_values(|p: Phrase| p@).push(tmpl@.last()@));
                left = left - 1;
            },
        }
        q = q + 1;
    }
    q
}

/// The elements that `fill_to_word` gives, appended to `tmpl`; returns
/// where it stopped.
fn fill_to_word_exec<'v>(
    words: &Vec<&'v str>,
    from: usize,
    v: &str,
    t: &Rule<'v>,
    dictionary: &Vec<(&str, &str)>,
    tmpl: &mut Rule<'v>,
) -> (stop: usize)
    requires
        fill_to_word(words_view(words@), from as int, v@, rule_view(*t), dict_view(dictionary@), Seq::empty(), rule_view(*old(tmpl))) is Some,
    ensures
        fill_to_word(words_view(words@), from as int, v@, rule_view(*t), dict_view(dictionary@), Seq::empty(), rule_view(*old(tmpl)))
            == Some((rule_view(*final(tmpl)), stop as int)),
{
    let ghost goal = fill_to_word(words_view(words@), from as int, v@, rule_view(*t), dict_view(dictionary@), Seq::empty(), rule_view(*tmpl));
    let mut clear: Vec<usize> = Vec::new();
    let mut q = from;
    while q < words.len()
        invariant
            goal is Some,
            fill_to_word(words_view(words@), q as int, v@, rule_view(*t), dict_view(dictionary@), clear@, rule_view(*tmpl)) == goal,
        ensures
            goal == Some((rule_view(*tmpl), q as int)),
        decreases words@.len() - q,
    {
        if str_eq(words[q], v) {
            break;
        }
        match word_lookup(dictionary, words[q]) {
            Some(part) => {
                mark_exec(t, part, &mut clear, tmpl);
            },
            None => {
                return q;
            },
        }
        q = q + 1;
    }
    q
}

/// One element of the target rule against the target sentence at `index`;
/// returns the new index.
fn pair_one<'d, 'h, 'v>(
    words: &Vec<&'v str>,
    rule: &Rule<'v>,
    progress: usize,
    index: usize,
    ret: &mut Vec<(String, (&'d Rule<'v>, Rule<'v>))>,
    deduced: &'d Deduced<'v>,
    rules: &RuleBook<'h, 'v>,
    dictionary: &Vec<(&str, &str)>,
) -> (r: Result<usize, ()>)
    requires
        pair_step(words_view(words@), rule_view(*rule), progress as int, index as int, pair_entries_view(old(ret)@), entries_view(deduced@), book_view(rules@), dict_view(dictionary@)) is Some,
    ensures
        pair_step(words_view(words@), rule_view(*rule), progress as int, index as int, pair_entries_view(old(ret)@), entries_view(deduced@), book_view(rules@), dict_view(dictionary@))
            == Some(match r {
                Ok(i) => Ok((i as int, pair_entries_view(final(ret)@))),
                Err(()) => Err(()),
            }),
{
    let ghost rv = rule_view(*rule);
    let n_words = words.len();
    assert(n_words == words@.len());
    assert(rv[progress as int] == rule@[progress as int]@);
    match &rule[progress] {
        Phrase::Voca(v) => {
            if !str_eq(words[index], v) {
                return Err(());
            }
            Ok(index + 1)
        },
        Phrase::Template((num, p)) => {
            proof {
                lemma_find_num_same_keys(deduced@, entries_view(deduced@), *num, 0);
            }
            match position_of_num(deduced, *num) {
                None => Ok(index),
                Some(e) => {
                    let t: &'d Rule<'v> = &deduced[e].1.1.0;
                    let mut template: Rule<'v> = Vec::new();
                    assert(rule_view(template) =~= Seq::empty());
                    let ghost ret0 = ret@;
                    if progress == rule.len() - 1 {
                        if index < words.len() - 1 {
                            fill_all_exec(words, index, t, dictionary, &mut template);
                            let i = words.len() - index;
                            ret.push((p.clone(), (t, template)));
                            assert(pair_entries_view(ret@) =~= pair_entries_view(ret0).push(
                                (p@, (rule_view(*t), rule_view(ret@.last().1.1))),
                            ));
                            Ok(index + i)
                        } else {
                            Ok(index + 1)
                        }
                    } else {
                        let w = match_phrase(words, p.as_str(), rules, dictionary);
                        let mut index = index;
                        let mut next_phrase_len: usize = 0;
                        if let Ok((n, _)) = w {
                            index = index + n;
                            next_phrase_len = n;
                            template.push(Phrase::Template((0, p.clone())));
                        }
                        proof {
                            assert(rule_view(template) =~= (match match_result_view(w) {
                                Ok(_) => seq![PhraseView::Template(0, p@)],
                                Err(()) => Seq::<PhraseView>::empty(),
                            }));
                            assert(rv[progress + 1] == rule@[progress + 1]@);
                        }
                        let next_word = words[index];
                        let next_pattern = &rule[progress + 1];
                        let fits = match next_pattern {
                            Phrase::Template((_, p2)) => match word_lookup(dictionary, next_word) {
                                Some(c) => str_eq(c, p2.as_str()) || next_phrase_len >= 2,
                                None => {
                                    return Ok(index);
                                },
                            },
                            Phrase::Voca(v) => str_eq(next_word, v),
                        };
                        if !fits {
                            let stop = match next_pattern {
                                Phrase::Template(_) => fill_left_exec(words, index, t, dictionary, &mut template),
                                Phrase::Voca(v) => fill_to_word_exec(words, index, v, t, dictionary, &mut template),
                            };
                            index = stop;
                            ret.push((p.clone(), (t, template)));
                            assert(pair_entries_view(ret@) =~= pair_entries_view(ret0).push(
                                (p@, (rule_view(*t), rule_view(ret@.last().1.1))),
                            ));
                        }
                        Ok(index)
                    }
                },
            }
        },
    }
}

pub open spec fn pair_result_view(r: Result<Vec<(String, (&Rule, Rule))>, ()>) -> Result<Seq<PairEntryView>, ()> {
    match r {
        Ok(v) => Ok(pair_entries_view(v@)),
        Err(()) => Err(()),
    }
}

/// Reads the target sentence `words_t` against the target rule of `rule`,
/// and for each slot of it that `deduced` has a source rule for, builds the
/// matching target rule: the words it covers become slots of the source
/// rule's slot numbers where the dictionary gives their part (each number
/// once), and stay as words where it does not. Fails where a word of the
/// target rule is not where it should be.
pub fn deduce_pair_rule<'d, 'h, 'v>(
    words_t: &Vec<&'v str>,
    rule: &(Rule<'v>, Rule<'v>),
    deduced: &'d Deduced<'v>,
    rules: &RuleBook<'h, 'v>,
    dictionary: &Vec<(&str, &str)>,
) -> (res: Result<Vec<(String, (&'d Rule<'v>, Rule<'v>))>, ()>)
    requires
        pair_spec(words_view(words_t@), pair_view(*rule), entries_view(deduced@), book_view(rules@), dict_view(dictionary@)) is Some,
    ensures
        pair_spec(words_view(words_t@), pair_view(*rule), entries_view(deduced@), book_view(rules@), dict_view(dictionary@)) == Some(
            pair_result_view(res),
        ),
        res matches Ok(ret) ==> pair_entries_fit(pair_entries_view(ret@), rule_view(rule.1), entries_view(deduced@)),
{
    proof {
        lemma_pair_patterns_fit(words_view(words_t@), rule_view(rule.1), 0, 0, Seq::empty(), entries_view(deduced@), book_view(rules@), dict_view(dictionary@));
    }
    let ghost goal = pair_spec(words_view(words_t@), pair_view(*rule), entries_view(deduced@), book_view(rules@), dict_view(dictionary@));
    let mut ret: Vec<(String, (&'d Rule<'v>, Rule<'v>))> = Vec::new();
    let mut index: usize = 0;
    let mut progress: usize = 0;
    assert(pair_entries_view(ret@) =~= Seq::empty());
    while progress < rule.1.len()
        invariant
            progress <= rule.1@.len(),
            rule_view(rule.1).len() == rule.1@.len(),
            goal == pair_spec(words_view(words_t@), pair_view(*rule), entries_view(deduced@), book_view(rules@), dict_view(dictionary@)),
            goal is Some,
            pair_patterns(words_view(words_t@), rule_view(rule.1), progress as int, index as int, pair_entries_view(ret@), entries_view(deduced@), book_view(rules@), dict_view(dictionary@))
                == goal,
        decreases rule.1@.len() - progress,
    {
        match pair_one(words_t, &rule.1, progress, index, &mut ret, deduced, rules, dictionary) {
            Ok(i) => {
                index = i;
            },
            Err(()) => {
                return Err(());
            },
        }
        progress = progress + 1;
    }
    Ok(ret)
}

} // verus!
