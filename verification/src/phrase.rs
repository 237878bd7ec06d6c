//! Rules, parsed phrases, and the matcher that reads a sentence as a phrase
//! of a given part of speech.
use vstd::prelude::*;
use vstd::string::StringExecFns;
use crate::table::{
    dict_view, distinct_nums, find_key, find_num, lemma_find_key_same_keys, lemma_find_num_found,
    lemma_find_num_same_keys, lemma_put_num, names_keyed, position_of_name, position_of_num,
    put_num, str_eq, word_get, word_lookup, words_from, words_view, DictView,
};

pub use Phrase::{Template, Voca};

verus! {

/// One element of a rule: a numbered slot for a phrase of some part of
/// speech, or a literal word.
#[derive(Debug)]
pub enum Phrase<'v> {
    Template((usize, String)),
    Voca(&'v str),
}

/// The mathematical value of a [`Phrase`].
pub enum PhraseView {
    Template(usize, Seq<char>),
    Voca(Seq<char>),
}

impl<'v> View for Phrase<'v> {
    type V = PhraseView;

    open spec fn view(&self) -> PhraseView {
        match self {
            Phrase::Template((n, p)) => PhraseView::Template(*n, p@),
            Phrase::Voca(v) => PhraseView::Voca(v@),
        }
    }
}

impl<'v> Clone for Phrase<'v> {
    fn clone(&self) -> (res: Self)
        ensures
            res@ == self@,
    {
        match self {
            Phrase::Template((n, p)) => Phrase::Template((*n, p.clone())),
            Phrase::Voca(v) => Phrase::Voca(v),
        }
    }
}

impl<'v> PartialEq for Phrase<'v> {
    fn eq(&self, other: &Self) -> (r: bool) {
        match (self, other) {
            (Phrase::Template((n, p)), Phrase::Template((m, q))) => *n == *m && str_eq(p.as_str(), q.as_str()),
            (Phrase::Voca(a), Phrase::Voca(b)) => str_eq(a, b),
            _ => false,
        }
    }
}

impl<'v> vstd::std_specs::cmp::PartialEqSpecImpl for Phrase<'v> {
    open spec fn obeys_eq_spec() -> bool {
        true
    }

    open spec fn eq_spec(&self, other: &Self) -> bool {
        self@ == other@
    }
}

/// A rule: a sequence of slots and words.
pub type Rule<'v> = Vec<Phrase<'v>>;

/// A rule of the source language with its counterpart in the target language.
pub type PairView = (Seq<PhraseView>, Seq<PhraseView>);

pub open spec fn rule_view(r: Rule) -> Seq<PhraseView> {
    r@.map_values(|p: Phrase| p@)
}

pub open spec fn pair_view(p: (Rule, Rule)) -> PairView {
    (rule_view(p.0), rule_view(p.1))
}

/// The rules of each part of speech, by the part's name.
pub type RuleBook<'p, 'v> = Vec<(String, Vec<&'p (Rule<'v>, Rule<'v>)>)>;

/// The mathematical value of a [`RuleBook`].
pub type BookView = Seq<(Seq<char>, Seq<PairView>)>;

pub open spec fn book_view(b: Seq<(String, Vec<&(Rule, Rule)>)>) -> BookView {
    b.map_values(|e: (String, Vec<&(Rule, Rule)>)| (e.0@, e.1@.map_values(|p: &(Rule, Rule)| pair_view(*p))))
}

/// A phrase read by a rule: either the rule pair with the phrases found for
/// its numbered slots, or a single word.
#[derive(Debug)]
pub enum Ready<'r, 'v> {
    Template((&'r (Rule<'v>, Rule<'v>), Vec<(usize, Ready<'r, 'v>)>)),
    Voca(&'v str),
}

/// The mathematical value of a [`Ready`].
pub enum ReadyView {
    Template(PairView, Seq<(usize, ReadyView)>),
    Voca(Seq<char>),
}

pub open spec fn ready_view(r: Ready) -> ReadyView
    decreases r, 0nat,
{
    match r {
        Ready::Template((pair, params)) => ReadyView::Template(
            pair_view(*pair),
            params_view(params@, params@.len()),
        ),
        Ready::Voca(v) => ReadyView::Voca(v@),
    }
}

/// The views of the first `n` entries of a slot list.
pub open spec fn params_view(ps: Seq<(usize, Ready)>, n: nat) -> Seq<(usize, ReadyView)>
    decreases ps, n,
{
    if n == 0 || n > ps.len() {
        Seq::empty()
    } else {
        params_view(ps, (n - 1) as nat).push((ps[n - 1].0, ready_view(ps[n - 1].1)))
    }
}

pub proof fn lemma_params_view(ps: Seq<(usize, Ready)>, n: nat)
    requires
        n <= ps.len(),
    ensures
        params_view(ps, n).len() == n,
        forall|i: int|
            0 <= i < n ==> #[trigger] params_view(ps, n)[i] == (ps[i].0, ready_view(ps[i].1)),
    decreases n,
{
    if n > 0 {
        lemma_params_view(ps, (n - 1) as nat);
    }
}

impl<'r, 'v> Clone for Ready<'r, 'v> {
    fn clone(&self) -> (res: Self)
        ensures
            ready_view(res) == ready_view(*self),
        decreases self,
    {
        match self {
            Ready::Voca(v) => Ready::Voca(v),
            Ready::Template((pair, params)) => {
                let mut copy: Vec<(usize, Ready<'r, 'v>)> = Vec::new();
                let mut j: usize = 0;
                while j < params.len()
                    invariant
                        j <= params@.len(),
                        *self == Ready::Template((*pair, *params)),
                        copy@.len() == j,
                        forall|i: int| 0 <= i < j ==> (#[trigger] copy@[i]).0 == params@[i].0 && ready_view(copy@[i].1) == ready_view(params@[i].1),
                    decreases params@.len() - j,
                {
                    proof {
                        let ghost x = self->Template_0;
                        assert(decreases_to!(*self => x));
                        assert(decreases_to!(x => x.1));
                        assert(decreases_to!(x.1 => x.1@));
                        assert(decreases_to!(x.1@ => x.1@[j as int]));
                        assert(decreases_to!(x.1@[j as int] => x.1@[j as int].1));
                    }
                    let c = params[j].1.clone();
                    copy.push((params[j].0, c));
                    j = j + 1;
                }
                proof {
                    lemma_params_view(copy@, copy@.len());
                    lemma_params_view(params@, params@.len());
                    assert(params_view(copy@, copy@.len()) =~= params_view(params@, params@.len()));
                }
                Ready::Template((pair, copy))
            },
        }
    }
}

/// The state of one rule while a sentence is read against it.
pub struct CandidateView {
    pub params: Seq<(usize, ReadyView)>,
    pub pair: PairView,
    pub progress: int,
    pub virgin: bool,
    pub index: int,
    pub alive: bool,
}

/// The candidates that a rule list starts with: the `i`th starts at index `i`.
pub open spec fn initial_candidates(ruleset: Seq<PairView>) -> Seq<CandidateView> {
    Seq::new(
        ruleset.len(),
        |i: int|
            CandidateView {
                params: Seq::empty(),
                pair: ruleset[i],
                progress: 0,
                virgin: true,
                index: i,
                alive: true,
            },
    )
}

/// A single word read as a phrase of `part`: a word the dictionary does not
/// know counts as a noun (`n`). `None` where the sentence is empty.
pub open spec fn single_word(phrase: Seq<Seq<char>>, part: Seq<char>, dict: DictView) -> Option<
    Result<(int, ReadyView), ()>,
> {
    if phrase.len() == 0 {
        None
    } else {
        let class = word_get(dict, phrase[0]);
        let fits = if part == seq!['n'] {
            match class {
                Some(c) => c == seq!['n'],
                None => true,
            }
        } else {
            class == Some(part)
        };
        if fits {
            Some(Ok((1, ReadyView::Voca(phrase[0]))))
        } else {
            Some(Err(()))
        }
    }
}

/// What one candidate does with the word at `word_idx`: `None` where the
/// matcher would panic, overflow or not come back within `fuel` nested
/// readings; `Some(Err(()))` where a nested reading fails and the whole
/// reading fails with it.
pub open spec fn step_one(
    fuel: nat,
    c: CandidateView,
    word_idx: int,
    phrase: Seq<Seq<char>>,
    part: Seq<char>,
    rules: BookView,
    dict: DictView,
) -> Option<Result<CandidateView, ()>>
    decreases fuel, 0nat, 0nat,
{
    let rule = c.pair.0;
    if !(c.index <= word_idx || c.progress < rule.len()) {
        Some(Ok(c))
    } else if c.progress < 0 || c.progress >= rule.len() {
        None
    } else {
        match rule[c.progress] {
            PhraseView::Voca(v) => {
                if phrase[word_idx] == v {
                    if c.index + 1 > usize::MAX {
                        None
                    } else {
                        Some(
                            Ok(
                                CandidateView {
                                    virgin: false,
                                    index: c.index + 1,
                                    progress: c.progress + 1,
                                    ..c
                                },
                            ),
                        )
                    }
                } else {
                    Some(Ok(CandidateView { alive: false, ..c }))
                }
            },
            PhraseView::Template(num, p) => {
                if c.virgin && p == part {
                    if c.index + 1 > usize::MAX {
                        None
                    } else {
                        Some(
                            Ok(
                                CandidateView {
                                    params: put_num(c.params, num, ReadyView::Voca(phrase[0])),
                                    index: c.index + 1,
                                    virgin: false,
                                    progress: c.progress + 1,
                                    ..c
                                },
                            ),
                        )
                    }
                } else if fuel == 0 {
                    None
                } else {
                    match spec_match((fuel - 1) as nat, phrase.skip(word_idx), p, rules, dict) {
                        None => None,
                        Some(Err(())) => Some(Err(())),
                        Some(Ok((n, r))) => {
                            if c.index + n > usize::MAX {
                                None
                            } else {
                                Some(
                                    Ok(
                                        CandidateView {
                                            params: put_num(c.params, num, r),
                                            index: c.index + n,
                                            virgin: false,
                                            progress: c.progress + 1,
                                            ..c
                                        },
                                    ),
                                )
                            }
                        },
                    }
                }
            },
        }
    }
}

/// The candidates from `j` on each take the word at `word_idx`, in order.
pub open spec fn step_candidates(
    fuel: nat,
    cands: Seq<CandidateView>,
    j: int,
    word_idx: int,
    phrase: Seq<Seq<char>>,
    part: Seq<char>,
    rules: BookView,
    dict: DictView,
) -> Option<Result<Seq<CandidateView>, ()>>
    decreases fuel, 1nat, cands.len() - j,
{
    if j < 0 || j >= cands.len() {
        Some(Ok(cands))
    } else {
        match step_one(fuel, cands[j], word_idx, phrase, part, rules, dict) {
            None => None,
            Some(Err(())) => Some(Err(())),
            Some(Ok(c)) => step_candidates(
                fuel,
                cands.update(j, c),
                j + 1,
                word_idx,
                phrase,
                part,
                rules,
                dict,
            ),
        }
    }
}

/// The words from `word_idx` on are read one after the other; after each
/// word the dropped candidates leave.
pub open spec fn run_words(
    fuel: nat,
    cands: Seq<CandidateView>,
    word_idx: int,
    phrase: Seq<Seq<char>>,
    part: Seq<char>,
    rules: BookView,
    dict: DictView,
) -> Option<Result<Seq<CandidateView>, ()>>
    decreases fuel, 2nat, phrase.len() - word_idx,
{
    if word_idx < 0 || word_idx >= phrase.len() {
        Some(Ok(cands))
    } else {
        match step_candidates(fuel, cands, 0, word_idx, phrase, part, rules, dict) {
            None => None,
            Some(Err(())) => Some(Err(())),
            Some(Ok(cs)) => run_words(
                fuel,
                keep(cs, false),
                word_idx + 1,
                phrase,
                part,
                rules,
                dict,
            ),
        }
    }
}

/// The first candidate, from `i` on, whose index is largest (ties go to the
/// earlier one); `best` is the best one before `i`.
pub open spec fn best_from(cands: Seq<CandidateView>, i: int, best: int) -> int
    decreases cands.len() - i,
{
    if i < 0 || i >= cands.len() {
        best
    } else {
        best_from(cands, i + 1, if cands[i].index > cands[best].index { i } else { best })
    }
}

/// Whether a candidate stays: with `finished`, the candidates that have
/// gone through their whole rule; else the ones not dropped.
pub open spec fn keeps(c: CandidateView, finished: bool) -> bool {
    if finished {
        c.progress == c.pair.0.len()
    } else {
        c.alive
    }
}

/// The candidates that stay, in their order.
pub open spec fn keep(cands: Seq<CandidateView>, finished: bool) -> Seq<CandidateView>
    decreases cands.len(),
{
    if cands.len() == 0 {
        cands
    } else {
        let rest = keep(cands.drop_last(), finished);
        if keeps(cands.last(), finished) {
            rest.push(cands.last())
        } else {
            rest
        }
    }
}

/// Reading `phrase` as a phrase of `part`, with at most `fuel` nested
/// readings: `Ok((n, r))` gives the reading `r` and the index `n` that the
/// best rule reached. `None` where the matcher panics, overflows or needs
/// more nested readings than `fuel`.
pub open spec fn spec_match(
    fuel: nat,
    phrase: Seq<Seq<char>>,
    part: Seq<char>,
    rules: BookView,
    dict: DictView,
) -> Option<Result<(int, ReadyView), ()>>
    decreases fuel, 3nat, 0int,
{
    match find_key(rules, part, 0) {
        Some(k) => {
            let ruleset = rules[k].1;
            match run_words(fuel, initial_candidates(ruleset), 0, phrase, part, rules, dict) {
                None => None,
                Some(Err(())) => Some(Err(())),
                Some(Ok(cs)) => {
                    let done = keep(cs, true);
                    if done.len() > 0 {
                        let b = best_from(done, 0, 0);
                        Some(Ok((done[b].index, ReadyView::Template(done[b].pair, done[b].params))))
                    } else {
                        single_word(phrase, part, dict)
                    }
                },
            }
        },
        None => single_word(phrase, part, dict),
    }
}

/// The matcher comes back, without panic or overflow, on these inputs.
pub open spec fn match_completes(
    phrase: Seq<Seq<char>>,
    part: Seq<char>,
    rules: BookView,
    dict: DictView,
) -> bool {
    exists|fuel: nat| #[trigger] spec_match(fuel, phrase, part, rules, dict) is Some
}

/// What the matcher gives back where it comes back.
pub open spec fn match_outcome(
    phrase: Seq<Seq<char>>,
    part: Seq<char>,
    rules: BookView,
    dict: DictView,
) -> Result<(int, ReadyView), ()> {
    spec_match(
        choose|fuel: nat| #[trigger] spec_match(fuel, phrase, part, rules, dict) is Some,
        phrase,
        part,
        rules,
        dict,
    ).unwrap()
}

pub open spec fn match_result_view(r: Result<(usize, Ready), ()>) -> Result<(int, ReadyView), ()> {
    match r {
        Ok((n, t)) => Ok((n as int, ready_view(t))),
        Err(()) => Err(()),
    }
}


/// The state of one rule while a sentence is read against it.
struct Candidate<'r, 'v> {
    params: Vec<(usize, Ready<'r, 'v>)>,
    pair: &'r (Rule<'v>, Rule<'v>),
    rule: &'r Rule<'v>,
    progress: usize,
    virgin: bool,
    index: usize,
    alive: bool,
}

spec fn cand_view(c: Candidate) -> CandidateView {
    CandidateView {
        params: params_view(c.params@, c.params@.len()),
        pair: pair_view(*c.pair),
        progress: c.progress as int,
        virgin: c.virgin,
        index: c.index as int,
        alive: c.alive,
    }
}

spec fn cands_view(cs: Seq<Candidate>) -> Seq<CandidateView> {
    cs.map_values(|c: Candidate| cand_view(c))
}

spec fn cands_wf(cs: Seq<Candidate>) -> bool {
    forall|i: int| 0 <= i < cs.len() ==> (#[trigger] cs[i]).wf()
}

impl<'r, 'v> Candidate<'r, 'v> {
    spec fn wf(&self) -> bool {
        *self.rule == self.pair.0
    }

    /// The element of the rule that the candidate is at, if any is left.
    fn pattern(&self) -> (r: Option<&'r Phrase<'v>>)
        ensures
            match r {
                Some(p) => self.progress < self.rule@.len() <= usize::MAX && *p == self.rule@[self.progress as int],
                None => self.progress >= self.rule@.len(),
            },
    {
        if self.progress < self.rule.len() {
            let rule: &'r Rule<'v> = self.rule;
            Some(&rule[self.progress])
        } else {
            None
        }
    }

    fn next(&mut self)
        requires
            old(self).progress < usize::MAX,
        ensures
            *final(self) == (Candidate { progress: (old(self).progress + 1) as usize, ..*old(self) }),
    {
        self.progress = self.progress + 1;
    }

    fn drop(&mut self)
        ensures
            *final(self) == (Candidate { alive: false, ..*old(self) }),
    {
        self.alive = false;
    }

    fn update(&mut self, k: usize, v: Ready<'r, 'v>)
        ensures
            final(self).pair == old(self).pair,
            final(self).rule == old(self).rule,
            final(self).progress == old(self).progress,
            final(self).virgin == old(self).virgin,
            final(self).index == old(self).index,
            final(self).alive == old(self).alive,
            params_view(final(self).params@, final(self).params@.len()) == put_num(
                params_view(old(self).params@, old(self).params@.len()),
                k,
                ready_view(v),
            ),
    {
        let ghost old_ps = self.params@;
        let ghost old_view = params_view(old_ps, old_ps.len());
        proof {
            lemma_params_view(old_ps, old_ps.len());
            lemma_find_num_same_keys(old_ps, old_view, k, 0);
            lemma_find_num_found(old_ps, k, 0);
        }
        let ghost rv = ready_view(v);
        match position_of_num(&self.params, k) {
            Some(i) => {
                self.params.set(i, (k, v));
                proof {
                    lemma_params_view(self.params@, self.params@.len());
                    assert(params_view(self.params@, self.params@.len()) =~= old_view.update(
                        i as int,
                        (k, rv),
                    ));
                }
            },
            None => {
                self.params.push((k, v));
                proof {
                    lemma_params_view(self.params@, self.params@.len());
                    assert(params_view(self.params@, self.params@.len()) =~= old_view.push((k, rv)));
                }
            },
        }
    }
}

/// The first word of `phrase` read alone as a phrase of `part`.
fn read_single_word<'r, 'v>(phrase: &Vec<&'v str>, part: &str, dictionary: &Vec<(&str, &str)>) -> (res:
    Result<(usize, Ready<'r, 'v>), ()>)
    requires
        phrase@.len() > 0,
    ensures
        single_word(words_view(phrase@), part@, dict_view(dictionary@)) == Some(match_result_view(res)),
{
    let first = phrase[0];
    let class = word_lookup(dictionary, first);
    proof {
        reveal_strlit("n");
        assert("n"@ =~= seq!['n']);
    }
    let fits = if str_eq(part, "n") {
        match class {
            Some(c) => str_eq(c, "n"),
            None => true,
        }
    } else {
        match class {
            Some(c) => str_eq(c, part),
            None => false,
        }
    };
    if fits {
        Ok((1, Ready::Voca(first)))
    } else {
        Err(())
    }
}

/// Keeps the candidates that `keeps` keeps, in their order.
fn keep_candidates<'r, 'v>(cands: Vec<Candidate<'r, 'v>>, finished: bool) -> (res: Vec<Candidate<'r, 'v>>)
    requires
        cands_wf(cands@),
    ensures
        cands_wf(res@),
        cands_view(res@) == keep(cands_view(cands@), finished),
{
    let ghost orig = cands_view(cands@);
    let mut rest = cands;
    let mut out: Vec<Candidate<'r, 'v>> = Vec::new();
    let ghost mut j: int = 0;
    while rest.len() > 0
        invariant
            0 <= j <= orig.len(),
            j + rest@.len() == orig.len(),
            cands_view(rest@) == orig.skip(j),
            cands_view(out@) == keep(orig.take(j), finished),
            cands_wf(rest@),
            cands_wf(out@),
        decreases rest@.len(),
    {
        let ghost before = rest@;
        let c = rest.remove(0);
        proof {
            assert(cands_view(before)[0] == cand_view(c));
            assert(orig[j] == cand_view(c));
            assert forall|i: int| 0 <= i < rest@.len() implies #[trigger] cands_view(rest@)[i] == orig.skip(j + 1)[i] by {
                assert(rest@[i] == before[i + 1]);
                assert(cands_view(before)[i + 1] == orig.skip(j)[i + 1]);
            }
            assert(cands_view(rest@) =~= orig.skip(j + 1));
            assert forall|i: int| 0 <= i < rest@.len() implies (#[trigger] rest@[i]).wf() by {
                assert(rest@[i] == before[i + 1]);
            }
            assert(orig.take(j + 1).drop_last() =~= orig.take(j));
            assert(orig.take(j + 1).last() == orig[j]);
            assert(before[0].wf());
        }
        let stays = if finished {
            c.progress == c.rule.len()
        } else {
            c.alive
        };
        if stays {
            out.push(c);
            proof {
                assert(cands_view(out@) =~= cands_view(out@.drop_last()).push(cand_view(c)));
            }
        }
        proof {
            j = j + 1;
        }
    }
    assert(orig.take(j) =~= orig);
    out
}

/// What one candidate does with the word at `word_idx`.
fn step_candidate<'r, 'v>(
    c: &mut Candidate<'r, 'v>,
    word_idx: usize,
    phrase: &Vec<&'v str>,
    part: &str,
    rules: &RuleBook<'r, 'v>,
    dictionary: &Vec<(&str, &str)>,
    Ghost(fuel): Ghost<nat>,
) -> (r: Result<(), ()>)
    requires
        old(c).wf(),
        word_idx < phrase@.len(),
        step_one(fuel, cand_view(*old(c)), word_idx as int, words_view(phrase@), part@, book_view(rules@), dict_view(dictionary@)) is Some,
    ensures
        final(c).wf(),
        match step_one(fuel, cand_view(*old(c)), word_idx as int, words_view(phrase@), part@, book_view(rules@), dict_view(dictionary@)).unwrap() {
            Ok(cv) => r is Ok && cand_view(*final(c)) == cv,
            Err(()) => r is Err,
        },
    decreases fuel, 0nat,
{
    if c.index <= word_idx || c.progress < c.rule.len() {
        match c.pattern() {
            None => {
                return Err(());
            },
            Some(Phrase::Voca(v)) => {
                if str_eq(phrase[word_idx], v) {
                    c.virgin = false;
                    c.index = c.index + 1;
                    c.next();
                } else {
                    c.drop();
                }
            },
            Some(Phrase::Template((num, p))) => {
                let num = *num;
                if c.virgin && str_eq(p.as_str(), part) {
                    c.update(num, Ready::Voca(phrase[0]));
                    c.index = c.index + 1;
                } else {
                    let rest = words_from(phrase, word_idx);
                    let w = match_with_fuel(&rest, p.as_str(), rules, dictionary, Ghost((fuel - 1) as nat));
                    match w {
                        Ok((n, t)) => {
                            c.update(num, t);
                            c.index = c.index + n;
                        },
                        Err(()) => {
                            return Err(());
                        },
                    }
                }
                c.virgin = false;
                c.next();
            },
        }
    }
    Ok(())
}

/// The matcher, with at most `fuel` nested readings.
fn match_with_fuel<'r, 'v>(
    phrase: &Vec<&'v str>,
    part: &str,
    rules: &RuleBook<'r, 'v>,
    dictionary: &Vec<(&str, &str)>,
    Ghost(fuel): Ghost<nat>,
) -> (res: Result<(usize, Ready<'r, 'v>), ()>)
    requires
        spec_match(fuel, words_view(phrase@), part@, book_view(rules@), dict_view(dictionary@)) is Some,
    ensures
        match_result_view(res) == spec_match(fuel, words_view(phrase@), part@, book_view(rules@), dict_view(dictionary@)).unwrap(),
    decreases fuel, 1nat,
{
    proof {
        lemma_find_key_same_keys(names_keyed(rules@), book_view(rules@), part@, 0);
    }
    match position_of_name(rules, part) {
        Some(k) => {
            let ruleset: &Vec<&'r (Rule<'v>, Rule<'v>)> = &rules[k].1;
            let ghost rs = book_view(rules@)[k as int].1;
            let ghost init = initial_candidates(rs);
            let mut candidates: Vec<Candidate<'r, 'v>> = Vec::new();
            let mut i: usize = 0;
            while i < ruleset.len()
                invariant
                    i <= ruleset@.len(),
                    rs == ruleset@.map_values(|p: &(Rule, Rule)| pair_view(*p)),
                    init == initial_candidates(rs),
                    k < rules@.len(),
                    ruleset == &rules@[k as int].1,
                    cands_view(candidates@) == init.take(i as int),
                    cands_wf(candidates@),
                decreases ruleset@.len() - i,
            {
                let pr: &'r (Rule<'v>, Rule<'v>) = ruleset[i];
                let ghost prev = candidates@;
                candidates.push(
                    Candidate {
                        params: Vec::new(),
                        pair: pr,
                        rule: &pr.0,
                        progress: 0,
                        virgin: true,
                        index: i,
                        alive: true,
                    },
                );
                proof {
                    assert(params_view(Seq::<(usize, Ready)>::empty(), 0) =~= Seq::empty());
                    assert(cands_view(candidates@) =~= cands_view(prev).push(cand_view(candidates@.last())));
                    assert(cands_view(candidates@) =~= init.take(i + 1));
                }
                i = i + 1;
            }
            assert(init.take(ruleset@.len() as int) =~= init);
            let ghost target = run_words(fuel, init, 0, words_view(phrase@), part@, book_view(rules@), dict_view(dictionary@));
            let mut word_idx: usize = 0;
            while word_idx < phrase.len()
                invariant
                    word_idx <= phrase@.len(),
                    spec_match(fuel, words_view(phrase@), part@, book_view(rules@), dict_view(dictionary@)) is Some,
                    find_key(book_view(rules@), part@, 0) == Some(k as int),
                    k < rules@.len(),
                    ruleset == &rules@[k as int].1,
                    init == initial_candidates(book_view(rules@)[k as int].1),
                    target == run_words(fuel, init, 0, words_view(phrase@), part@, book_view(rules@), dict_view(dictionary@)),
                    target is Some,
                    run_words(fuel, cands_view(candidates@), word_idx as int, words_view(phrase@), part@, book_view(rules@), dict_view(dictionary@)) == target,
                    target matches Some(Err(())) ==> spec_match(fuel, words_view(phrase@), part@, book_view(rules@), dict_view(dictionary@)) == Some(Err::<(int, ReadyView), ()>(())),
                    cands_wf(candidates@),
                decreases phrase@.len() - word_idx,
            {
                let ghost start = cands_view(candidates@);
                let mut j: usize = 0;
                while j < candidates.len()
                    invariant
                        word_idx < phrase@.len(),
                        j <= candidates@.len(),
                        candidates@.len() == start.len(),
                        step_candidates(fuel, cands_view(candidates@), j as int, word_idx as int, words_view(phrase@), part@, book_view(rules@), dict_view(dictionary@))
                            == step_candidates(fuel, start, 0, word_idx as int, words_view(phrase@), part@, book_view(rules@), dict_view(dictionary@)),
                        step_candidates(fuel, start, 0, word_idx as int, words_view(phrase@), part@, book_view(rules@), dict_view(dictionary@)) is Some,
                        run_words(fuel, start, word_idx as int, words_view(phrase@), part@, book_view(rules@), dict_view(dictionary@)) == target,
                        target matches Some(Err(())) ==> spec_match(fuel, words_view(phrase@), part@, book_view(rules@), dict_view(dictionary@)) == Some(Err::<(int, ReadyView), ()>(())),
                        cands_wf(candidates@),
                    decreases candidates@.len() - j,
                {
                    let ghost before = candidates@;
                    proof {
                        assert(cands_view(before)[j as int] == cand_view(before[j as int]));
                        assert(before[j as int].wf());
                    }
                    let r = step_candidate(&mut candidates[j], word_idx, phrase, part, rules, dictionary, Ghost(fuel));
                    if r.is_err() {
                        return Err(());
                    }
                    proof {
                        assert(cands_view(candidates@) =~= cands_view(before).update(j as int, cand_view(candidates@[j as int])));
                        assert forall|i: int| 0 <= i < candidates@.len() implies (#[trigger] candidates@[i]).wf() by {
                            if i != j {
                                assert(candidates@[i] == before[i]);
                            }
                        }
                    }
                    j = j + 1;
                }
                candidates = keep_candidates(candidates, false);
                word_idx = word_idx + 1;
            }
            candidates = keep_candidates(candidates, true);
            if candidates.len() > 0 {
                let ghost done = cands_view(candidates@);
                let mut best: usize = 0;
                let mut i: usize = 0;
                while i < candidates.len()
                    invariant
                        done == cands_view(candidates@),
                        done.len() > 0,
                        i <= done.len(),
                        best < done.len(),
                        best_from(done, i as int, best as int) == best_from(done, 0, 0),
                    decreases done.len() - i,
                {
                    proof {
                        assert(done[i as int].index == candidates@[i as int].index);
                        assert(done[best as int].index == candidates@[best as int].index);
                    }
                    if candidates[i].index > candidates[best].index {
                        best = i;
                    }
                    i = i + 1;
                }
                let chosen = candidates.remove(best);
                proof {
                    assert(done[best as int] == cand_view(chosen));
                }
                Ok((chosen.index, Ready::Template((chosen.pair, chosen.params))))
            } else {
                read_single_word(phrase, part, dictionary)
            }
        },
        None => read_single_word(phrase, part, dictionary),
    }
}

/// Reads `phrase` as a phrase of `part` by the rules of that part, trying
/// all of them side by side word by word, and returns the reading of the
/// rule that reached the largest index with that index. Where no rule gets
/// through, the first word alone is read as a word of `part` if the
/// dictionary says so (unknown words count as nouns, `n`).
pub fn match_phrase<'r, 'v>(
    phrase: &Vec<&'v str>,
    part: &str,
    rules: &RuleBook<'r, 'v>,
    dictionary: &Vec<(&str, &str)>,
) -> (res: Result<(usize, Ready<'r, 'v>), ()>)
    requires
        match_completes(words_view(phrase@), part@, book_view(rules@), dict_view(dictionary@)),
    ensures
        match_result_view(res) == match_outcome(words_view(phrase@), part@, book_view(rules@), dict_view(dictionary@)),
        res matches Ok((n, r)) ==> reading_from_rules(n as int, ready_view(r), words_view(phrase@), part@, book_view(rules@)),
        res matches Ok((n, Ready::Voca(w))) ==> {
            &&& n == 1
            &&& phrase@.len() > 0
            &&& w@ == phrase@[0]@
            &&& word_get(dict_view(dictionary@), w@) == Some(part@) || (part@ == seq!['n'] && word_get(
                dict_view(dictionary@),
                w@,
            ) is None)
        },
        find_key(book_view(rules@), part@, 0) is None && phrase@.len() > 0 ==> (res is Ok <==> (word_get(
            dict_view(dictionary@),
            phrase@[0]@,
        ) == Some(part@) || (part@ == seq!['n'] && word_get(dict_view(dictionary@), phrase@[0]@) is None))),
{
    let ghost fuel = choose|fuel: nat| #[trigger] spec_match(fuel, words_view(phrase@), part@, book_view(rules@), dict_view(dictionary@)) is Some;
    proof {
        lemma_match_reading(fuel, words_view(phrase@), part@, book_view(rules@), dict_view(dictionary@));
        lemma_single_word_reading(fuel, words_view(phrase@), part@, book_view(rules@), dict_view(dictionary@));
    }
    match_with_fuel(phrase, part, rules, dictionary, Ghost(fuel))
}

/// How many elements the source side of a reading's rule has.
pub open spec fn source_len(t: ReadyView) -> nat {
    match t {
        ReadyView::Template(pair, _) => pair.0.len(),
        ReadyView::Voca(_) => 0,
    }
}

/// The text of a reading: a word reads as itself; a rule reading gives,
/// for each element of its source rule, ` word` for a word and
/// ` (part.reading)` for a slot. `None` where a slot has no reading bound.
pub open spec fn render_spec(t: ReadyView) -> Option<Seq<char>>
    decreases t, source_len(t) + 1,
{
    match t {
        ReadyView::Voca(v) => Some(v),
        ReadyView::Template(_, _) => render_from(t, 0, Seq::empty()),
    }
}

/// The text of the source rule elements of a reading from the `k`th on,
/// after `acc`.
pub open spec fn render_from(t: ReadyView, k: int, acc: Seq<char>) -> Option<Seq<char>>
    decreases t, source_len(t) - k,
{
    match t {
        ReadyView::Voca(_) => None,
        ReadyView::Template(pair, params) => {
            if k < 0 || k >= pair.0.len() {
                Some(acc)
            } else {
                match pair.0[k] {
                    PhraseView::Voca(v) => render_from(t, k + 1, acc + seq![' '] + v),
                    PhraseView::Template(i, p) => match find_num(params, i, 0) {
                        None => None,
                        Some(q) => {
                            proof {
                                lemma_find_num_found(params, i, 0);
                            }
                            match render_spec(params[q].1) {
                                None => None,
                                Some(r) => render_from(
                                    t,
                                    k + 1,
                                    acc + seq![' ', '('] + p + seq!['.'] + r + seq![')'],
                                ),
                            }
                        },
                    },
                }
            }
        },
    }
}

impl<'r, 'v> Ready<'r, 'v> {
    /// The text of the reading (see `render_spec`).
    pub fn render(&self) -> (s: String)
        requires
            render_spec(ready_view(*self)) is Some,
        ensures
            render_spec(ready_view(*self)) == Some(s@),
        decreases self,
    {
        match self {
            Ready::Voca(v) => (*v).to_owned(),
            Ready::Template((pair, params)) => {
                let ghost t = ready_view(*self);
                let ghost pv = params_view(params@, params@.len());
                proof {
                    lemma_params_view(params@, params@.len());
                }
                let mut s = String::new();
                let mut k: usize = 0;
                while k < pair.0.len()
                    invariant
                        k <= pair.0@.len(),
                        t == ready_view(*self),
                        *self == Ready::Template((*pair, *params)),
                        t == ReadyView::Template(pair_view(**pair), pv),
                        pv.len() == params@.len(),
                        forall|j: int| 0 <= j < params@.len() ==> #[trigger] pv[j] == (params@[j].0, ready_view(params@[j].1)),
                        render_from(t, k as int, s@) == render_spec(t),
                        render_spec(t) is Some,
                    decreases pair.0@.len() - k,
                {
                    assert(t->Template_0.0[k as int] == pair.0@[k as int]@);
                    let ghost s0 = s@;
                    proof {
                        reveal_strlit(" ");
                        reveal_strlit(" (");
                        reveal_strlit(".");
                        reveal_strlit(")");
                    }
                    match &pair.0[k] {
                        Phrase::Voca(v) => {
                            s.append(" ");
                            s.append(v);
                            assert(s@ =~= s0 + seq![' '] + v@);
                        },
                        Phrase::Template((i, p)) => {
                            proof {
                                lemma_find_num_same_keys(params@, pv, *i, 0);
                            }
                            match position_of_num(params, *i) {
                                None => {
                                    return s;
                                },
                                Some(q) => {
                                    proof {
                                        let ghost x = self->Template_0;
                                        assert(decreases_to!(*self => x));
                                        assert(decreases_to!(x => x.1));
                                        assert(decreases_to!(x.1 => x.1@));
                                        assert(decreases_to!(x.1@ => x.1@[q as int]));
                                        assert(decreases_to!(x.1@[q as int] => x.1@[q as int].1));
                                    }
                                    let r = params[q].1.render();
                                    s.append(" (");
                                    s.append(p.as_str());
                                    s.append(".");
                                    s.append(r.as_str());
                                    s.append(")");
                                    assert(s@ =~= s0 + seq![' ', '('] + p@ + seq!['.'] + r@ + seq![')']);
                                },
                            }
                        },
                    }
                    k = k + 1;
                }
                s
            },
        }
    }
}

/// A reading as the matcher gives it: a single word is the sentence's
/// first word with index 1; a rule reading is by one of the rules listed for
/// `part`, with each slot number bound at most once.
pub open spec fn reading_from_rules(
    n: int,
    r: ReadyView,
    phrase: Seq<Seq<char>>,
    part: Seq<char>,
    rules: BookView,
) -> bool {
    match r {
        ReadyView::Voca(w) => n == 1 && phrase.len() > 0 && w == phrase[0],
        ReadyView::Template(pair, params) => match find_key(rules, part, 0) {
            Some(k) => {
                &&& exists|j: int| 0 <= j < rules[k].1.len() && rules[k].1[j] == pair
                &&& distinct_nums(params)
            },
            None => false,
        },
    }
}

/// A candidate whose rule is one of `ruleset` and whose slots are bound
/// once each.
pub open spec fn cand_ok(c: CandidateView, ruleset: Seq<PairView>) -> bool {
    &&& exists|j: int| 0 <= j < ruleset.len() && ruleset[j] == c.pair
    &&& distinct_nums(c.params)
}

pub open spec fn cands_ok(cs: Seq<CandidateView>, ruleset: Seq<PairView>) -> bool {
    forall|i: int| 0 <= i < cs.len() ==> cand_ok(#[trigger] cs[i], ruleset)
}

proof fn lemma_step_one_ok(
    fuel: nat,
    c: CandidateView,
    word_idx: int,
    phrase: Seq<Seq<char>>,
    part: Seq<char>,
    rules: BookView,
    dict: DictView,
    ruleset: Seq<PairView>,
)
    requires
        cand_ok(c, ruleset),
    ensures
        step_one(fuel, c, word_idx, phrase, part, rules, dict) matches Some(Ok(c2)) ==> cand_ok(c2, ruleset),
{
    let rule = c.pair.0;
    if (c.index <= word_idx || c.progress < rule.len()) && 0 <= c.progress < rule.len() {
        match rule[c.progress] {
            PhraseView::Template(num, p) => {
                if c.virgin && p == part {
                    lemma_put_num(c.params, num, ReadyView::Voca(phrase[0]));
                } else if fuel > 0 {
                    match spec_match((fuel - 1) as nat, phrase.skip(word_idx), p, rules, dict) {
                        Some(Ok((n, r))) => {
                            lemma_put_num(c.params, num, r);
                        },
                        _ => {},
                    }
                }
            },
            PhraseView::Voca(_) => {},
        }
    }
}

proof fn lemma_step_candidates_ok(
    fuel: nat,
    cands: Seq<CandidateView>,
    j: int,
    word_idx: int,
    phrase: Seq<Seq<char>>,
    part: Seq<char>,
    rules: BookView,
    dict: DictView,
    ruleset: Seq<PairView>,
)
    requires
        cands_ok(cands, ruleset),
    ensures
        step_candidates(fuel, cands, j, word_idx, phrase, part, rules, dict) matches Some(Ok(cs))
            ==> cands_ok(cs, ruleset),
    decreases cands.len() - j,
{
    if 0 <= j < cands.len() {
        lemma_step_one_ok(fuel, cands[j], word_idx, phrase, part, rules, dict, ruleset);
        match step_one(fuel, cands[j], word_idx, phrase, part, rules, dict) {
            Some(Ok(c)) => {
                let next = cands.update(j, c);
                assert forall|i: int| 0 <= i < next.len() implies cand_ok(#[trigger] next[i], ruleset) by {
                    if i != j {
                        assert(next[i] == cands[i]);
                    }
                }
                lemma_step_candidates_ok(fuel, next, j + 1, word_idx, phrase, part, rules, dict, ruleset);
            },
            _ => {},
        }
    }
}

proof fn lemma_keep_ok(cs: Seq<CandidateView>, finished: bool, ruleset: Seq<PairView>)
    requires
        cands_ok(cs, ruleset),
    ensures
        cands_ok(keep(cs, finished), ruleset),
    decreases cs.len(),
{
    if cs.len() > 0 {
        let rest = cs.drop_last();
        assert forall|i: int| 0 <= i < rest.len() implies cand_ok(#[trigger] rest[i], ruleset) by {
            assert(rest[i] == cs[i]);
        }
        lemma_keep_ok(rest, finished, ruleset);
        assert(cand_ok(cs[cs.len() - 1], ruleset));
        let k = keep(rest, finished);
        if keeps(cs.last(), finished) {
            assert forall|i: int| 0 <= i < k.push(cs.last()).len() implies cand_ok(#[trigger] k.push(cs.last())[i], ruleset) by {
                if i < k.len() {
                    assert(k.push(cs.last())[i] == k[i]);
                }
            }
        }
    }
}

proof fn lemma_run_words_ok(
    fuel: nat,
    cands: Seq<CandidateView>,
    word_idx: int,
    phrase: Seq<Seq<char>>,
    part: Seq<char>,
    rules: BookView,
    dict: DictView,
    ruleset: Seq<PairView>,
)
    requires
        cands_ok(cands, ruleset),
    ensures
        run_words(fuel, cands, word_idx, phrase, part, rules, dict) matches Some(Ok(cs)) ==> cands_ok(cs, ruleset),
    decreases phrase.len() - word_idx,
{
    if 0 <= word_idx < phrase.len() {
        lemma_step_candidates_ok(fuel, cands, 0, word_idx, phrase, part, rules, dict, ruleset);
        match step_candidates(fuel, cands, 0, word_idx, phrase, part, rules, dict) {
            Some(Ok(cs)) => {
                lemma_keep_ok(cs, false, ruleset);
                lemma_run_words_ok(fuel, keep(cs, false), word_idx + 1, phrase, part, rules, dict, ruleset);
            },
            _ => {},
        }
    }
}

proof fn lemma_best_from_range(cands: Seq<CandidateView>, i: int, best: int)
    requires
        0 <= best < cands.len(),
    ensures
        0 <= best_from(cands, i, best) < cands.len(),
    decreases cands.len() - i,
{
    if 0 <= i < cands.len() {
        lemma_best_from_range(cands, i + 1, if cands[i].index > cands[best].index { i } else { best });
    }
}

/// A single word is read as a phrase of `part` only where the dictionary
/// gives it that part, or where the part is the noun `n` and the dictionary
/// does not know the word; it is always the first word, with index 1. Where
/// `part` has no rules at all, the first word is read alone exactly when it
/// fits so, and the reading fails otherwise.
pub proof fn lemma_single_word_reading(
    fuel: nat,
    phrase: Seq<Seq<char>>,
    part: Seq<char>,
    rules: BookView,
    dict: DictView,
)
    ensures
        spec_match(fuel, phrase, part, rules, dict) matches Some(Ok((n, ReadyView::Voca(w)))) ==> {
            &&& n == 1
            &&& phrase.len() > 0
            &&& w == phrase[0]
            &&& word_get(dict, w) == Some(part) || (part == seq!['n'] && word_get(dict, w) is None)
        },
        find_key(rules, part, 0) is None && phrase.len() > 0 ==> spec_match(fuel, phrase, part, rules, dict) == Some(
            if word_get(dict, phrase[0]) == Some(part) || (part == seq!['n'] && word_get(dict, phrase[0]) is None) {
                Ok::<(int, ReadyView), ()>((1, ReadyView::Voca(phrase[0])))
            } else {
                Err(())
            },
        ),
{
    if part == seq!['n'] {
        if word_get(dict, phrase[0]) is Some && word_get(dict, phrase[0]) != Some(part) {
            assert(word_get(dict, phrase[0]).unwrap() != seq!['n']);
        }
    }
}

/// Every reading the matcher gives is a single first word with index 1, or
/// a reading by one of the rules listed for `part` that binds each slot
/// number at most once.
pub proof fn lemma_match_reading(
    fuel: nat,
    phrase: Seq<Seq<char>>,
    part: Seq<char>,
    rules: BookView,
    dict: DictView,
)
    ensures
        spec_match(fuel, phrase, part, rules, dict) matches Some(Ok((n, r))) ==> reading_from_rules(
            n,
            r,
            phrase,
            part,
            rules,
        ),
{
    match find_key(rules, part, 0) {
        Some(k) => {
            let ruleset = rules[k].1;
            let init = initial_candidates(ruleset);
            assert forall|i: int| 0 <= i < init.len() implies cand_ok(#[trigger] init[i], ruleset) by {
                assert(ruleset[i] == init[i].pair);
                assert(init[i].params =~= Seq::<(usize, ReadyView)>::empty());
            }
            lemma_run_words_ok(fuel, init, 0, phrase, part, rules, dict, ruleset);
            match run_words(fuel, init, 0, phrase, part, rules, dict) {
                Some(Ok(cs)) => {
                    lemma_keep_ok(cs, true, ruleset);
                    let done = keep(cs, true);
                    if done.len() > 0 {
                        lemma_best_from_range(done, 0, 0);
                        let b = best_from(done, 0, 0);
                        assert(cand_ok(done[b], ruleset));
                    }
                },
                _ => {},
            }
        },
        None => {},
    }
}

} // verus!
