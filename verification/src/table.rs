//! Association lists keyed by words, part names or slot numbers, and the
//! string comparisons they rest on.
use vstd::prelude::*;

verus! {

/// Compares two string slices by their characters.
pub fn str_eq(a: &str, b: &str) -> (r: bool)
    ensures
        r == (a@ == b@),
{
    a.to_owned() == b.to_owned()
}

/// A list of words, by their characters.
pub type Words = Seq<Seq<char>>;

/// A word-keyed list of word pairs, by their characters.
pub type DictView = Seq<(Seq<char>, Seq<char>)>;

pub open spec fn words_view(s: Seq<&str>) -> Words {
    s.map_values(|w: &str| w@)
}

pub open spec fn dict_view(d: Seq<(&str, &str)>) -> DictView {
    d.map_values(|e: (&str, &str)| (e.0@, e.1@))
}

/// The list with its word keys taken by their characters.
pub open spec fn strs_keyed<V>(s: Seq<(&str, V)>) -> Seq<(Seq<char>, V)> {
    s.map_values(|e: (&str, V)| (e.0@, e.1))
}

/// The list with its name keys taken by their characters.
pub open spec fn names_keyed<V>(s: Seq<(String, V)>) -> Seq<(Seq<char>, V)> {
    s.map_values(|e: (String, V)| (e.0@, e.1))
}

/// Index of the first entry at or after `k` whose key is `w`.
pub open spec fn find_key<V>(s: Seq<(Seq<char>, V)>, w: Seq<char>, k: int) -> Option<int>
    decreases s.len() - k,
{
    if k < 0 || k >= s.len() {
        None
    } else if s[k].0 == w {
        Some(k)
    } else {
        find_key(s, w, k + 1)
    }
}

/// `find_key` depends on the keys alone.
pub proof fn lemma_find_key_same_keys<A, B>(s: Seq<(Seq<char>, A)>, t: Seq<(Seq<char>, B)>, w: Seq<char>, k: int)
    requires
        s.len() == t.len(),
        forall|i: int| 0 <= i < s.len() ==> #[trigger] s[i].0 == t[i].0,
    ensures
        find_key(s, w, k) == find_key(t, w, k),
    decreases s.len() - k,
{
    if k >= 0 && k < s.len() {
        lemma_find_key_same_keys(s, t, w, k + 1);
    }
}

/// A found index is in range and holds the key.
pub proof fn lemma_find_key_found<V>(s: Seq<(Seq<char>, V)>, w: Seq<char>, k: int)
    ensures
        find_key(s, w, k) matches Some(i) ==> k <= i < s.len() && s[i].0 == w,
    decreases s.len() - k,
{
    if k >= 0 && k < s.len() && s[k].0 != w {
        lemma_find_key_found(s, w, k + 1);
    }
}

/// Index of the first entry at or after `k` whose numeric key is `n`.
pub open spec fn find_num<V>(s: Seq<(usize, V)>, n: usize, k: int) -> Option<int>
    decreases s.len() - k,
{
    if k < 0 || k >= s.len() {
        None
    } else if s[k].0 == n {
        Some(k)
    } else {
        find_num(s, n, k + 1)
    }
}

/// What a word-keyed list of word pairs maps `w` to (its first entry wins).
pub open spec fn word_get(d: DictView, w: Seq<char>) -> Option<Seq<char>> {
    match find_key(d, w, 0) {
        Some(i) => Some(d[i].1),
        None => None,
    }
}

/// `find_num` depends on the keys alone.
pub proof fn lemma_find_num_same_keys<A, B>(s: Seq<(usize, A)>, t: Seq<(usize, B)>, n: usize, k: int)
    requires
        s.len() == t.len(),
        forall|i: int| 0 <= i < s.len() ==> #[trigger] s[i].0 == t[i].0,
    ensures
        find_num(s, n, k) == find_num(t, n, k),
    decreases s.len() - k,
{
    if k >= 0 && k < s.len() {
        lemma_find_num_same_keys(s, t, n, k + 1);
    }
}

/// A found index is in range and holds the key.
pub proof fn lemma_find_num_found<V>(s: Seq<(usize, V)>, n: usize, k: int)
    ensures
        find_num(s, n, k) matches Some(i) ==> k <= i < s.len() && s[i].0 == n,
    decreases s.len() - k,
{
    if k >= 0 && k < s.len() && s[k].0 != n {
        lemma_find_num_found(s, n, k + 1);
    }
}

/// No numeric key occurs twice.
pub open spec fn distinct_nums<V>(s: Seq<(usize, V)>) -> bool {
    forall|i: int, j: int| 0 <= i < j < s.len() ==> s[i].0 != s[j].0
}

/// `s` with `n` bound to `v`: an entry with key `n` is replaced in place,
/// else the binding is added at the end.
pub open spec fn put_num<V>(s: Seq<(usize, V)>, n: usize, v: V) -> Seq<(usize, V)> {
    match find_num(s, n, 0) {
        Some(i) => s.update(i, (n, v)),
        None => s.push((n, v)),
    }
}

/// Where `find_num` finds nothing, no entry from `k` on has the key.
pub proof fn lemma_find_num_absent<V>(s: Seq<(usize, V)>, n: usize, k: int)
    requires
        0 <= k,
        find_num(s, n, k) is None,
    ensures
        forall|i: int| k <= i < s.len() ==> s[i].0 != n,
    decreases s.len() - k,
{
    if k < s.len() {
        lemma_find_num_absent(s, n, k + 1);
    }
}

/// Binding keeps the keys distinct, binds `n` to `v`, and keeps every other
/// entry.
pub proof fn lemma_put_num<V>(s: Seq<(usize, V)>, n: usize, v: V)
    requires
        distinct_nums(s),
    ensures
        distinct_nums(put_num(s, n, v)),
        put_num(s, n, v).contains((n, v)),
        forall|j: int|
            0 <= j < put_num(s, n, v).len() ==> #[trigger] put_num(s, n, v)[j] == (n, v) || s.contains(
                put_num(s, n, v)[j],
            ),
        forall|i: int| 0 <= i < s.len() && s[i].0 != n ==> put_num(s, n, v).contains(s[i]),
{
    lemma_find_num_found(s, n, 0);
    let r = put_num(s, n, v);
    match find_num(s, n, 0) {
        Some(i) => {
            assert(r[i] == (n, v));
            assert forall|j: int| 0 <= j < r.len() implies #[trigger] r[j] == (n, v) || s.contains(r[j]) by {
                if j != i {
                    assert(r[j] == s[j]);
                }
            }
            assert forall|k: int| 0 <= k < s.len() && s[k].0 != n implies r.contains(s[k]) by {
                assert(r[k] == s[k]);
            }
        },
        None => {
            lemma_find_num_absent(s, n, 0);
            assert(r[s.len() as int] == (n, v));
            assert forall|j: int| 0 <= j < r.len() implies #[trigger] r[j] == (n, v) || s.contains(r[j]) by {
                if j < s.len() {
                    assert(r[j] == s[j]);
                }
            }
            assert forall|k: int| 0 <= k < s.len() && s[k].0 != n implies r.contains(s[k]) by {
                assert(r[k] == s[k]);
            }
        },
    }
}

/// Position of the first entry whose word key is `w`.
pub fn position_of_word<V>(s: &Vec<(&str, V)>, w: &str) -> (r: Option<usize>)
    ensures
        match r {
            Some(i) => i < s@.len() && find_key(strs_keyed(s@), w@, 0) == Some(i as int),
            None => find_key(strs_keyed(s@), w@, 0) is None,
        },
{
    let mut k: usize = 0;
    while k < s.len()
        invariant
            k <= s@.len(),
            find_key(strs_keyed(s@), w@, 0) == find_key(strs_keyed(s@), w@, k as int),
        decreases s@.len() - k,
    {
        if str_eq(s[k].0, w) {
            return Some(k);
        }
        k = k + 1;
    }
    None
}

/// Position of the first entry whose name key is `w`.
pub fn position_of_name<V>(s: &Vec<(String, V)>, w: &str) -> (r: Option<usize>)
    ensures
        match r {
            Some(i) => i < s@.len() && find_key(names_keyed(s@), w@, 0) == Some(i as int),
            None => find_key(names_keyed(s@), w@, 0) is None,
        },
{
    let mut k: usize = 0;
    while k < s.len()
        invariant
            k <= s@.len(),
            find_key(names_keyed(s@), w@, 0) == find_key(names_keyed(s@), w@, k as int),
        decreases s@.len() - k,
    {
        if str_eq(s[k].0.as_str(), w) {
            return Some(k);
        }
        k = k + 1;
    }
    None
}

/// Position of the first entry whose numeric key is `n`.
pub fn position_of_num<V>(s: &Vec<(usize, V)>, n: usize) -> (r: Option<usize>)
    ensures
        match r {
            Some(i) => i < s@.len() && find_num(s@, n, 0) == Some(i as int),
            None => find_num(s@, n, 0) is None,
        },
{
    let mut k: usize = 0;
    while k < s.len()
        invariant
            k <= s@.len(),
            find_num(s@, n, 0) == find_num(s@, n, k as int),
        decreases s@.len() - k,
    {
        if s[k].0 == n {
            return Some(k);
        }
        k = k + 1;
    }
    None
}

/// The value that a word-keyed list of word pairs gives `w`.
pub fn word_lookup<'a>(d: &Vec<(&str, &'a str)>, w: &str) -> (r: Option<&'a str>)
    ensures
        match r {
            Some(v) => word_get(dict_view(d@), w@) == Some(v@),
            None => word_get(dict_view(d@), w@) is None,
        },
{
    proof {
        lemma_find_key_same_keys(strs_keyed(d@), dict_view(d@), w@, 0);
    }
    match position_of_word(d, w) {
        Some(i) => Some(d[i].1),
        None => None,
    }
}

/// The words of `phrase` from `from` on.
pub fn words_from<'v>(phrase: &Vec<&'v str>, from: usize) -> (r: Vec<&'v str>)
    requires
        from <= phrase@.len(),
    ensures
        r@ == phrase@.skip(from as int),
        words_view(r@) == words_view(phrase@).skip(from as int),
{
    let mut r: Vec<&'v str> = Vec::new();
    let mut k = from;
    while k < phrase.len()
        invariant
            from <= k <= phrase@.len(),
            r@ == phrase@.subrange(from as int, k as int),
        decreases phrase@.len() - k,
    {
        r.push(phrase[k]);
        proof {
            assert(phrase@.subrange(from as int, k + 1) =~= phrase@.subrange(from as int, k as int).push(
                phrase@[k as int],
            ));
        }
        k = k + 1;
    }
    assert(r@ =~= phrase@.skip(from as int));
    assert(words_view(r@) =~= words_view(phrase@).skip(from as int));
    r
}

/// Whether `n` occurs in `s`.
pub fn contains_num(s: &Vec<usize>, n: usize) -> (r: bool)
    ensures
        r == s@.contains(n),
{
    let mut k: usize = 0;
    while k < s.len()
        invariant
            k <= s@.len(),
            forall|j: int| 0 <= j < k ==> s@[j] != n,
        decreases s@.len() - k,
    {
        if s[k] == n {
            return true;
        }
        k = k + 1;
    }
    false
}

/// Whether the word `x` occurs in `s`.
pub fn contains_word(s: &Vec<&str>, x: &str) -> (r: bool)
    ensures
        r == words_view(s@).contains(x@),
{
    let mut k: usize = 0;
    while k < s.len()
        invariant
            k <= s@.len(),
            forall|j: int| 0 <= j < k ==> words_view(s@)[j] != x@,
        decreases s@.len() - k,
    {
        if str_eq(s[k], x) {
            assert(words_view(s@)[k as int] == x@);
            return true;
        }
        k = k + 1;
    }
    false
}

} // verus!
