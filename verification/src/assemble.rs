//! Spreading a parsed phrase into a flat rule of the target language.
use vstd::prelude::*;
use crate::phrase::{
    lemma_params_view, params_view, ready_view, rule_view, Phrase, PhraseView, Ready, ReadyView,
    Rule,
};
use crate::table::{
    dict_view, find_key, lemma_find_key_same_keys, strs_keyed, words_view, DictView, find_num, lemma_find_num_found, lemma_find_num_same_keys, position_of_num,
    position_of_word, word_get, word_lookup,
};

verus! {

pub open spec fn rule_view_of(s: Seq<Phrase>) -> Seq<PhraseView> {
    s.map_values(|p: Phrase| p@)
}

/// Each source word with its candidate translations, by their characters.
pub type VocabView = Seq<(Seq<char>, Seq<Seq<char>>)>;

pub open spec fn vocab_view(v: Seq<(&str, Vec<&str>)>) -> VocabView {
    v.map_values(|e: (&str, Vec<&str>)| (e.0@, words_view(e.1@)))
}

/// How many elements the target side of a reading's rule has.
pub open spec fn target_len(t: ReadyView) -> nat {
    match t {
        ReadyView::Template(pair, _) => pair.1.len(),
        ReadyView::Voca(_) => 0,
    }
}

/// A reading spread into a flat target rule, with the words that were left
/// open, slots numbered from `i` on. A word with a single candidate
/// translation in `vocab` becomes that translation; a word with several
/// becomes a slot of its part of speech and is added to the open words.
/// `None` where spreading would panic or overflow.
pub open spec fn spread_spec(
    t: ReadyView,
    vocab: VocabView,
    dict: DictView,
    i: int,
) -> Option<(Seq<PhraseView>, Seq<Seq<char>>)>
    decreases t, target_len(t) + 1,
{
    match t {
        ReadyView::Voca(v) => match find_key(vocab, v, 0) {
            None => None,
            Some(q) => {
                let tv = vocab[q].1;
                if tv.len() == 1 {
                    Some((seq![PhraseView::Voca(tv[0])], Seq::empty()))
                } else {
                    let class = match word_get(dict, v) {
                        Some(c) => c,
                        None => seq!['n'],
                    };
                    Some((seq![PhraseView::Template(i as usize, class)], seq![v]))
                }
            },
        },
        ReadyView::Template(_, _) => spread_from(t, 0, vocab, dict, i, Seq::empty(), Seq::empty()),
    }
}

/// The target elements of a reading from the `k`th on, with `ret` and
/// `args` built so far and the next slot number `i`.
pub open spec fn spread_from(
    t: ReadyView,
    k: int,
    vocab: VocabView,
    dict: DictView,
    i: int,
    ret: Seq<PhraseView>,
    args: Seq<Seq<char>>,
) -> Option<(Seq<PhraseView>, Seq<Seq<char>>)>
    decreases t, target_len(t) - k,
{
    match t {
        ReadyView::Voca(_) => None,
        ReadyView::Template(pair, params) => {
            if k < 0 || k >= pair.1.len() {
                Some((ret, args))
            } else {
                match pair.1[k] {
                    PhraseView::Voca(v) => match find_key(vocab, v, 0) {
                        None => None,
                        Some(q) => {
                            let tv = vocab[q].1;
                            if tv.len() == 1 {
                                if i + 1 > usize::MAX {
                                    None
                                } else {
                                    spread_from(
                                        t,
                                        k + 1,
                                        vocab,
                                        dict,
                                        i + 1,
                                        ret.push(PhraseView::Voca(tv[0])),
                                        args,
                                    )
                                }
                            } else {
                                match word_get(dict, v) {
                                    None => None,
                                    Some(c) => if i + 1 > usize::MAX {
                                        None
                                    } else {
                                        spread_from(
                                            t,
                                            k + 1,
                                            vocab,
                                            dict,
                                            i + 1,
                                            ret.push(PhraseView::Template(i as usize, c)),
                                            args.push(v),
                                        )
                                    },
                                }
                            }
                        },
                    },
                    PhraseView::Template(num, _) => match find_num(params, num, 0) {
                        None => None,
                        Some(q) => {
                            proof {
                                lemma_find_num_found(params, num, 0);
                            }
                            match spread_spec(params[q].1, vocab, dict, i) {
                                None => None,
                                Some((cr, ca)) => if i + ca.len() > usize::MAX {
                                    None
                                } else {
                                    spread_from(
                                        t,
                                        k + 1,
                                        vocab,
                                        dict,
                                        i + ca.len(),
                                        ret + cr,
                                        args + ca,
                                    )
                                },
                            }
                        },
                    },
                }
            }
        },
    }
}

/// How many slots a rule has.
pub open spec fn count_slots(r: Seq<PhraseView>) -> nat
    decreases r.len(),
{
    if r.len() == 0 {
        0
    } else {
        count_slots(r.drop_last()) + if r.last() is Template {
            1nat
        } else {
            0nat
        }
    }
}

/// Every slot of the rule has a number of at least `lo`.
pub open spec fn slots_from(r: Seq<PhraseView>, lo: int) -> bool {
    forall|k: int| 0 <= k < r.len() ==> (#[trigger] r[k] matches PhraseView::Template(n, _) ==> n >= lo)
}

pub proof fn lemma_count_slots_add(a: Seq<PhraseView>, b: Seq<PhraseView>)
    ensures
        count_slots(a + b) == count_slots(a) + count_slots(b),
    decreases b.len(),
{
    if b.len() == 0 {
        assert(a + b =~= a);
    } else {
        assert((a + b).drop_last() =~= a + b.drop_last());
        assert((a + b).last() == b.last());
        lemma_count_slots_add(a, b.drop_last());
    }
}

/// The parts of speech of a rule's slots, in order.
pub open spec fn slot_parts(r: Seq<PhraseView>) -> Seq<Seq<char>>
    decreases r.len(),
{
    if r.len() == 0 {
        Seq::empty()
    } else {
        slot_parts(r.drop_last()) + match r.last() {
            PhraseView::Template(_, c) => seq![c],
            PhraseView::Voca(_) => Seq::empty(),
        }
    }
}

/// A word's part of speech in the dictionary; a noun where the dictionary
/// lacks the word.
pub open spec fn part_or_noun(dict: DictView, w: Seq<char>) -> Seq<char> {
    match word_get(dict, w) {
        Some(c) => c,
        None => seq!['n'],
    }
}

/// The parts of speech of open words, in order.
pub open spec fn open_parts(dict: DictView, a: Seq<Seq<char>>) -> Seq<Seq<char>> {
    a.map_values(|w: Seq<char>| part_or_noun(dict, w))
}

pub proof fn lemma_slot_parts_add(a: Seq<PhraseView>, b: Seq<PhraseView>)
    ensures
        slot_parts(a + b) == slot_parts(a) + slot_parts(b),
    decreases b.len(),
{
    if b.len() == 0 {
        assert(a + b =~= a);
        assert(slot_parts(a) + slot_parts(b) =~= slot_parts(a));
    } else {
        assert((a + b).drop_last() =~= a + b.drop_last());
        assert((a + b).last() == b.last());
        lemma_slot_parts_add(a, b.drop_last());
        let tail = match b.last() {
            PhraseView::Template(_, c) => seq![c],
            PhraseView::Voca(_) => Seq::<Seq<char>>::empty(),
        };
        assert(slot_parts(a) + slot_parts(b.drop_last()) + tail =~= slot_parts(a) + (slot_parts(b.drop_last()) + tail));
    }
}

pub proof fn lemma_open_parts_add(dict: DictView, a: Seq<Seq<char>>, b: Seq<Seq<char>>)
    ensures
        open_parts(dict, a + b) == open_parts(dict, a) + open_parts(dict, b),
{
    assert(open_parts(dict, a + b) =~= open_parts(dict, a) + open_parts(dict, b));
}

/// Spreading gives as many slots as open words, each numbered from `i` on,
/// and each slot has the part of speech that the dictionary gives its open
/// word (a noun where the dictionary lacks it).
pub proof fn lemma_spread(
    t: ReadyView,
    vocab: VocabView,
    dict: DictView,
    i: int,
)
    requires
        0 <= i <= usize::MAX,
    ensures
        spread_spec(t, vocab, dict, i) matches Some((r, a)) ==> count_slots(r) == a.len() && slots_from(r, i)
            && slot_parts(r) == open_parts(dict, a),
    decreases t, target_len(t) + 1,
{
    match t {
        ReadyView::Voca(v) => {
            assert(count_slots(Seq::<PhraseView>::empty()) == 0);
            assert(open_parts(dict, Seq::empty()) =~= Seq::empty());
            assert(slot_parts(Seq::<PhraseView>::empty()) =~= Seq::empty());
            let one = seq![PhraseView::Template(i as usize, seq!['n'])];
            assert(one.drop_last() =~= Seq::<PhraseView>::empty());
            match find_key(vocab, v, 0) {
                Some(q) => {
                    let tv = vocab[q].1;
                    if tv.len() == 1 {
                        let r = seq![PhraseView::Voca(tv[0])];
                        assert(r.drop_last() =~= Seq::<PhraseView>::empty());
                        assert(slot_parts(r) =~= Seq::empty());
                    } else {
                        let class = match word_get(dict, v) {
                            Some(c) => c,
                            None => seq!['n'],
                        };
                        let r = seq![PhraseView::Template(i as usize, class)];
                        assert(r.drop_last() =~= Seq::<PhraseView>::empty());
                        assert(slot_parts(r) =~= seq![class]);
                        assert(open_parts(dict, seq![v]) =~= seq![class]);
                    }
                },
                None => {},
            }
        },
        ReadyView::Template(_, _) => {
            assert(open_parts(dict, Seq::empty()) =~= Seq::empty());
            assert(slot_parts(Seq::<PhraseView>::empty()) =~= Seq::empty());
            lemma_spread_from(t, 0, vocab, dict, i, Seq::empty(), Seq::empty(), i);
        },
    }
}

pub proof fn lemma_spread_from(
    t: ReadyView,
    k: int,
    vocab: VocabView,
    dict: DictView,
    i: int,
    ret: Seq<PhraseView>,
    args: Seq<Seq<char>>,
    lo: int,
)
    requires
        count_slots(ret) == args.len(),
        slots_from(ret, lo),
        slot_parts(ret) == open_parts(dict, args),
        0 <= lo <= i <= usize::MAX,
    ensures
        spread_from(t, k, vocab, dict, i, ret, args) matches Some((r, a)) ==> count_slots(r) == a.len()
            && slots_from(r, lo) && slot_parts(r) == open_parts(dict, a),
    decreases t, target_len(t) - k,
{
    match t {
        ReadyView::Voca(_) => {},
        ReadyView::Template(pair, params) => {
            if 0 <= k < pair.1.len() {
                match pair.1[k] {
                    PhraseView::Voca(v) => match find_key(vocab, v, 0) {
                        None => {},
                        Some(q) => {
                            let tv = vocab[q].1;
                            if tv.len() == 1 {
                                let r = ret.push(PhraseView::Voca(tv[0]));
                                assert(r.drop_last() =~= ret);
                                assert(slot_parts(r) =~= slot_parts(ret));
                                if i + 1 <= usize::MAX {
                                    lemma_spread_from(t, k + 1, vocab, dict, i + 1, r, args, lo);
                                }
                            } else {
                                match word_get(dict, v) {
                                    None => {},
                                    Some(c) => {
                                        let r = ret.push(PhraseView::Template(i as usize, c));
                                        assert(r.drop_last() =~= ret);
                                        assert(slot_parts(r) =~= slot_parts(ret).push(c));
                                        assert(open_parts(dict, args.push(v)) =~= open_parts(dict, args).push(c));
                                        if i + 1 <= usize::MAX {
                                            lemma_spread_from(t, k + 1, vocab, dict, i + 1, r, args.push(v), lo);
                                        }
                                    },
                                }
                            }
                        },
                    },
                    PhraseView::Template(num, _) => match find_num(params, num, 0) {
                        None => {},
                        Some(q) => {
                            lemma_find_num_found(params, num, 0);
                            lemma_spread(params[q].1, vocab, dict, i);
                            match spread_spec(params[q].1, vocab, dict, i) {
                                None => {},
                                Some((cr, ca)) => {
                                    lemma_count_slots_add(ret, cr);
                                    lemma_slot_parts_add(ret, cr);
                                    lemma_open_parts_add(dict, args, ca);
                                    let r = ret + cr;
                                    assert forall|m: int| 0 <= m < r.len() implies (#[trigger] r[m] matches PhraseView::Template(n, _) ==> n >= lo) by {
                                        if m >= ret.len() {
                                            assert(r[m] == cr[m - ret.len()]);
                                        }
                                    }
                                    if i + ca.len() <= usize::MAX {
                                        lemma_spread_from(t, k + 1, vocab, dict, i + ca.len(), r, args + ca, lo);
                                    }
                                },
                            }
                        },
                    },
                }
            }
        },
    }
}

/// Spreads a reading into a flat rule of the target language, numbering the
/// slots from `i` on, and returns the rule with the words that stay open:
/// each word with more than one candidate translation in `vocab` becomes a
/// slot of its part of speech, a word with exactly one becomes that
/// translation, and the slots of the reading's target rule are spread in
/// place by the readings bound to them.
pub fn spread_phrase<'r, 'v>(
    tree: &Ready<'r, 'v>,
    vocab: &Vec<(&str, Vec<&'v str>)>,
    dictionary: &Vec<(&str, &str)>,
    i: usize,
) -> (res: (Rule<'v>, Vec<&'v str>))
    requires
        spread_spec(ready_view(*tree), vocab_view(vocab@), dict_view(dictionary@), i as int) is Some,
    ensures
        spread_spec(ready_view(*tree), vocab_view(vocab@), dict_view(dictionary@), i as int) == Some(
            (rule_view(res.0), words_view(res.1@)),
        ),
        count_slots(rule_view(res.0)) == res.1@.len(),
        slots_from(rule_view(res.0), i as int),
        slot_parts(rule_view(res.0)) == open_parts(dict_view(dictionary@), words_view(res.1@)),
    decreases tree,
{
    proof {
        lemma_spread(ready_view(*tree), vocab_view(vocab@), dict_view(dictionary@), i as int);
    }
    match tree {
        Ready::Voca(v) => {
            let mut ret: Rule<'v> = Vec::new();
            let mut args: Vec<&'v str> = Vec::new();
            proof {
                lemma_find_key_same_keys(strs_keyed(vocab@), vocab_view(vocab@), v@, 0);
            }
            match position_of_word(vocab, v) {
                None => {},
                Some(q) => {
                    let tv = &vocab[q].1;
                    if tv.len() == 1 {
                        ret.push(Phrase::Voca(tv[0]));
                    } else {
                        let class = match word_lookup(dictionary, v) {
                            Some(c) => c,
                            None => "n",
                        };
                        proof {
                            reveal_strlit("n");
                            assert("n"@ =~= seq!['n']);
                        }
                        ret.push(Phrase::Template((i, class.to_owned())));
                        args.push(*v);
                    }
                },
            }
            proof {
                assert(rule_view(ret) =~= spread_spec(ready_view(*tree), vocab_view(vocab@), dict_view(dictionary@), i as int).unwrap().0);
                assert(words_view(args@) =~= spread_spec(ready_view(*tree), vocab_view(vocab@), dict_view(dictionary@), i as int).unwrap().1);
            }
            (ret, args)
        },
        Ready::Template((pair, params)) => {
            let ghost t = ready_view(*tree);
            let ghost pv = params_view(params@, params@.len());
            proof {
                lemma_params_view(params@, params@.len());
            }
            let mut ret: Rule<'v> = Vec::new();
            let mut args: Vec<&'v str> = Vec::new();
            let ghost i0 = i as int;
            let mut i = i;
            let mut k: usize = 0;
            assert(rule_view(ret) =~= Seq::empty());
            assert(words_view(args@) =~= Seq::empty());
            while k < pair.1.len()
                invariant
                    k <= pair.1@.len(),
                    t == ready_view(*tree),
                    *tree == Ready::Template((*pair, *params)),
                    t == ReadyView::Template(crate::phrase::pair_view(**pair), pv),
                    pv == params_view(params@, params@.len()),
                    pv.len() == params@.len(),
                    forall|j: int| 0 <= j < params@.len() ==> #[trigger] pv[j] == (params@[j].0, ready_view(params@[j].1)),
                    spread_from(t, k as int, vocab_view(vocab@), dict_view(dictionary@), i as int, rule_view(ret), words_view(args@))
                        == spread_spec(t, vocab_view(vocab@), dict_view(dictionary@), i0),
                    spread_spec(t, vocab_view(vocab@), dict_view(dictionary@), i0) is Some,
                decreases pair.1@.len() - k,
            {
                let ghost ret0 = ret@;
                let ghost args0 = args@;
                proof {
                    assert(t->Template_0.1[k as int] == pair.1@[k as int]@);
                }
                match &pair.1[k] {
                    Phrase::Voca(v) => {
                        proof {
                lemma_find_key_same_keys(strs_keyed(vocab@), vocab_view(vocab@), v@, 0);
            }
            match position_of_word(vocab, v) {
                            None => {
                                return (ret, args);
                            },
                            Some(q) => {
                                let tv = &vocab[q].1;
                                if tv.len() == 1 {
                                    ret.push(Phrase::Voca(tv[0]));
                                } else {
                                    match word_lookup(dictionary, v) {
                                        None => {
                                            return (ret, args);
                                        },
                                        Some(c) => {
                                            ret.push(Phrase::Template((i, c.to_owned())));
                                            args.push(*v);
                                        },
                                    }
                                }
                            },
                        }
                        proof {
                            assert(rule_view(ret) =~= rule_view_of(ret0).push(ret@.last()@));
                            assert(words_view(args@) =~= words_view(args0) || words_view(args@) =~= words_view(args0).push(args@.last()@));
                        }
                        if i == usize::MAX {
                            return (ret, args);
                        }
                        i = i + 1;
                    },
                    Phrase::Template((num, _)) => {
                        proof {
                            lemma_find_num_same_keys(params@, pv, *num, 0);
                        }
                        match position_of_num(params, *num) {
                            None => {
                                return (ret, args);
                            },
                            Some(q) => {
                                proof {
                                    let ghost x = tree->Template_0;
                                    assert(decreases_to!(*tree => x));
                                    assert(decreases_to!(x => x.1));
                                    assert(decreases_to!(x.1 => x.1@));
                                    assert(decreases_to!(x.1@ => x.1@[q as int]));
                                    assert(decreases_to!(x.1@[q as int] => x.1@[q as int].1));
                                    assert(decreases_to!(*tree => params@[q as int].1));
                                }
                                let (mut child_rule, mut child_args) = spread_phrase(
                                    &params[q].1,
                                    vocab,
                                    dictionary,
                                    i,
                                );
                                let ghost cr = child_rule@;
                                let ghost ca = child_args@;
                                ret.append(&mut child_rule);
                                if child_args.len() > usize::MAX - i {
                                    return (ret, args);
                                }
                                i = i + child_args.len();
                                args.append(&mut child_args);
                                proof {
                                    assert(rule_view(ret) =~= rule_view_of(ret0) + rule_view_of(cr));
                                    assert(words_view(args@) =~= words_view(args0) + words_view(ca));
                                }
                            },
                        }
                    },
                }
                k = k + 1;
            }
            (ret, args)
        },
    }
}

} // verus!
