//! Cutting text into lines and words.
use vstd::prelude::*;
use crate::table::{words_view, Words};

verus! {

/// `s` cut at each occurrence of `sep`: the pieces between the separators,
/// in order (so one piece more than there are separators).
pub open spec fn split_spec(s: Seq<char>, sep: char) -> Words
    decreases s.len(),
{
    if s.len() == 0 {
        seq![Seq::empty()]
    } else {
        let r = split_spec(s.drop_last(), sep);
        if s.last() == sep {
            r.push(Seq::empty())
        } else {
            r.update(r.len() - 1, r.last().push(s.last()))
        }
    }
}

/// A cut always has at least one piece.
pub proof fn lemma_split_nonempty(s: Seq<char>, sep: char)
    ensures
        split_spec(s, sep).len() >= 1,
    decreases s.len(),
{
    if s.len() > 0 {
        lemma_split_nonempty(s.drop_last(), sep);
    }
}

/// Whether `c` has the Unicode property White_Space.
pub open spec fn is_white_space(c: char) -> bool {
    ||| '\u{9}' <= c <= '\u{d}'
    ||| c == ' '
    ||| c == '\u{85}'
    ||| c == '\u{a0}'
    ||| c == '\u{1680}'
    ||| '\u{2000}' <= c <= '\u{200a}'
    ||| c == '\u{2028}'
    ||| c == '\u{2029}'
    ||| c == '\u{202f}'
    ||| c == '\u{205f}'
    ||| c == '\u{3000}'
}

pub open spec fn trim_start_spec(s: Seq<char>) -> Seq<char>
    decreases s.len(),
{
    if s.len() > 0 && is_white_space(s[0]) {
        trim_start_spec(s.drop_first())
    } else {
        s
    }
}

pub open spec fn trim_end_spec(s: Seq<char>) -> Seq<char>
    decreases s.len(),
{
    if s.len() > 0 && is_white_space(s.last()) {
        trim_end_spec(s.drop_last())
    } else {
        s
    }
}

/// `s` without its leading and trailing white space.
pub open spec fn trim_spec(s: Seq<char>) -> Seq<char> {
    trim_end_spec(trim_start_spec(s))
}

/// Calls `str::split` with a character separator and collects the pieces.
/// Claimed: the pieces are those of `split_spec`, as std documents
/// `split` (the substrings separated by the pattern, in order, an empty one
/// where two separators meet or the text starts or ends with one).
#[verifier::external_body]
pub(crate) fn split_text<'a>(s: &'a str, sep: char) -> (r: Vec<&'a str>)
    ensures
        words_view(r@) == split_spec(s@, sep),
{
    s.split(sep).collect()
}

/// Calls `str::trim`. Claimed: the result is the text without leading and
/// trailing characters of the Unicode property White_Space, as std
/// documents `trim`.
#[verifier::external_body]
pub(crate) fn trim_text<'a>(s: &'a str) -> (r: &'a str)
    ensures
        r@ == trim_spec(s@),
{
    s.trim()
}

} // verus!
