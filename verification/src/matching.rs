//! What the library has from outside: delimiter matching by the `regex`
//! crate, and trimming by std. Nothing in this file is proved; each contract
//! states what the called function is documented to return.

use vstd::prelude::*;

verus! {

/// The pieces that `regex::Regex::split` cuts `text` into when the regex is
/// compiled from `pattern` by `regex::Regex::new`, from left to right: the
/// text before the first match, the texts between two neighbouring matches and
/// the text behind the last match. `None` where `Regex::new` rejects `pattern`.
pub uninterp spec fn split_fragments(pattern: Seq<char>, text: Seq<char>) -> Option<
    Seq<Seq<char>>,
>;

/// For each match that `regex::Regex::captures_iter` finds in `text`, from
/// left to right, what `regex::Captures::name` gives for the capture group
/// called `group`: the text it matched, or `None` where the group took no part
/// in the match or the regex has no group of that name. The regex is compiled
/// from `pattern` by `regex::Regex::new`; `None` as a whole where that rejects
/// `pattern`.
pub uninterp spec fn captured_texts(
    pattern: Seq<char>,
    group: Seq<char>,
    text: Seq<char>,
) -> Option<Seq<Option<Seq<char>>>>;

/// What `char::is_whitespace` returns: whether `c` has the Unicode property
/// White_Space.
pub uninterp spec fn white_space(c: char) -> bool;

/// How many characters at the start of `s` are white space.
pub open spec fn leading_white(s: Seq<char>) -> nat
    decreases s.len(),
{
    if s.len() > 0 && white_space(s[0]) {
        1 + leading_white(s.drop_first())
    } else {
        0
    }
}

/// How many characters at the end of `s` are white space.
pub open spec fn trailing_white(s: Seq<char>) -> nat
    decreases s.len(),
{
    if s.len() > 0 && white_space(s.last()) {
        1 + trailing_white(s.drop_last())
    } else {
        0
    }
}

/// `s` without the white space at its start and at its end.
pub open spec fn trimmed(s: Seq<char>) -> Seq<char> {
    if leading_white(s) >= s.len() {
        Seq::empty()
    } else {
        s.subrange(leading_white(s) as int, s.len() - trailing_white(s))
    }
}

/// Calls `regex::Regex::new` on `pattern` and `regex::Regex::split` on
/// `text`. The contract claims only that the owned copies of the pieces are
/// the named result; it is not proved.
#[verifier::external_body]
pub(crate) fn split_by(pattern: &str, text: &str) -> (r: Option<Vec<String>>)
    ensures
        r.deep_view() == split_fragments(pattern@, text@),
{
    match regex::Regex::new(pattern) {
        Ok(re) => Some(re.split(text).map(|piece| piece.to_owned()).collect()),
        Err(_) => None,
    }
}

/// Calls `regex::Regex::new` on `pattern`, `regex::Regex::captures_iter` on
/// `text`, and on each match `regex::Captures::name` with `group`. The
/// contract claims only that the owned copies of the captured texts are the
/// named result; it is not proved.
#[verifier::external_body]
pub(crate) fn capture_group(pattern: &str, group: &str, text: &str) -> (r: Option<
    Vec<Option<String>>,
>)
    ensures
        r.deep_view() == captured_texts(pattern@, group@, text@),
{
    match regex::Regex::new(pattern) {
        Ok(re) => Some(
            re.captures_iter(text).map(|found| found.name(group).map(|m| m.as_str().to_owned()))
                .collect(),
        ),
        Err(_) => None,
    }
}

/// Calls `str::trim`, which std documents to return the slice with leading
/// and trailing white space removed, white space being what
/// `char::is_whitespace` accepts. Not proved.
#[verifier::external_body]
pub(crate) fn trim_of(s: &str) -> (r: &str)
    ensures
        r@ == trimmed(s@),
        r@.len() > 0 ==> !white_space(r@.first()) && !white_space(r@.last()),
{
    s.trim()
}

} // verus!
