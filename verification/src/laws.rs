//! What holds of every reference list that the library returns.

use vstd::prelude::*;
use crate::matching::{leading_white, trailing_white, trimmed, white_space};
use crate::raw_text::{
    entries, entries_upto, entry_at, paired_count, references_of, Entry, RawText,
};

verus! {

/// The white space counted at the start of a text is white space, it is no
/// longer than the text, and the character behind it is none.
pub proof fn lemma_leading_white(s: Seq<char>)
    ensures
        leading_white(s) <= s.len(),
        forall|i: int| 0 <= i < leading_white(s) ==> white_space(#[trigger] s[i]),
        leading_white(s) < s.len() ==> !white_space(s[leading_white(s) as int]),
    decreases s.len(),
{
    if s.len() > 0 && white_space(s[0]) {
        let t = s.drop_first();
        lemma_leading_white(t);
        assert forall|i: int| 0 <= i < leading_white(s) implies white_space(#[trigger] s[i]) by {
            if i > 0 {
                assert(s[i] == t[i - 1]);
            }
        }
        if leading_white(s) < s.len() {
            assert(s[leading_white(s) as int] == t[leading_white(t) as int]);
        }
    }
}

/// The white space counted at the end of a text is white space, it is no
/// longer than the text, and the character before it is none.
pub proof fn lemma_trailing_white(s: Seq<char>)
    ensures
        trailing_white(s) <= s.len(),
        forall|i: int| s.len() - trailing_white(s) <= i < s.len() ==> white_space(#[trigger] s[i]),
        trailing_white(s) < s.len() ==> !white_space(s[s.len() - trailing_white(s) - 1]),
    decreases s.len(),
{
    if s.len() > 0 && white_space(s.last()) {
        let t = s.drop_last();
        lemma_trailing_white(t);
        assert forall|i: int| s.len() - trailing_white(s) <= i < s.len() implies white_space(
            #[trigger] s[i],
        ) by {
            if i < s.len() - 1 {
                assert(s[i] == t[i]);
            }
        }
        if trailing_white(s) < s.len() {
            assert(s[s.len() - trailing_white(s) - 1] == t[t.len() - trailing_white(t) - 1]);
        }
    }
}

/// A text trims to nothing exactly where all its characters are white space.
/// Otherwise the trimmed text is what stands between the white space at the
/// two ends, and it starts and ends with a character that is no white space.
pub proof fn lemma_trimmed_shape(s: Seq<char>)
    ensures
        trimmed(s).len() == 0 <==> (forall|i: int| 0 <= i < s.len() ==> white_space(#[trigger] s[i])),
        trimmed(s).len() > 0 ==> {
            &&& leading_white(s) + trimmed(s).len() + trailing_white(s) == s.len()
            &&& !white_space(trimmed(s).first())
            &&& !white_space(trimmed(s).last())
        },
{
    lemma_leading_white(s);
    lemma_trailing_white(s);
    let a = leading_white(s) as int;
    let b = trailing_white(s) as int;
    if a < s.len() {
        if s.len() - b <= a {
            assert(white_space(s[a]));
        }
        assert(a < s.len() - b);
        assert(trimmed(s).first() == s[a]);
        assert(trimmed(s).last() == s[s.len() - b - 1]);
    }
}

/// No entry has a blank body, and there are at most as many entries as
/// markers were looked at.
pub proof fn lemma_entries_upto_filled(
    fragments: Seq<Seq<char>>,
    ids: Seq<Option<Seq<char>>>,
    n: nat,
)
    ensures
        entries_upto(fragments, ids, n).len() <= n,
        forall|k: int|
            0 <= k < entries_upto(fragments, ids, n).len() ==> (#[trigger] entries_upto(
                fragments,
                ids,
                n,
            )[k]).content.len() > 0,
    decreases n,
{
    if n > 0 {
        lemma_entries_upto_filled(fragments, ids, (n - 1) as nat);
    }
}

/// Every entry of a reference list has a body that is not empty: a body that
/// trims to nothing is dropped with its marker.
pub proof fn lemma_contents_not_empty(fragments: Seq<Seq<char>>, ids: Seq<Option<Seq<char>>>)
    ensures
        entries(fragments, ids).len() <= paired_count(fragments, ids),
        forall|k: int|
            0 <= k < entries(fragments, ids).len() ==> (#[trigger] entries(
                fragments,
                ids,
            )[k]).content.len() > 0,
{
    lemma_entries_upto_filled(fragments, ids, paired_count(fragments, ids));
}

/// Where each of the first `n` markers has an identifier and a body that is
/// not blank, the first `n` markers give `n` entries, the entry number `k`
/// with the identifier and the trimmed body of the marker number `k`.
pub proof fn lemma_entries_upto_in_order(
    fragments: Seq<Seq<char>>,
    ids: Seq<Option<Seq<char>>>,
    n: nat,
)
    requires
        forall|k: int|
            0 <= k < n ==> (#[trigger] ids[k]) is Some && trimmed(fragments[k + 1]).len() > 0,
    ensures
        entries_upto(fragments, ids, n).len() == n,
        forall|k: int|
            0 <= k < n ==> #[trigger] entries_upto(fragments, ids, n)[k] == (Entry {
                id: ids[k]->Some_0,
                content: trimmed(fragments[k + 1]),
            }),
    decreases n,
{
    if n > 0 {
        lemma_entries_upto_in_order(fragments, ids, (n - 1) as nat);
        assert(ids[n - 1] is Some);
        assert(entry_at(fragments, ids, n - 1).len() == 1);
    }
}

/// Order is kept: where every marker has an identifier and a body that is not
/// blank, the identifiers of the entries are the identifiers of the markers,
/// one for one and from left to right.
pub proof fn lemma_order_preserved(fragments: Seq<Seq<char>>, ids: Seq<Option<Seq<char>>>)
    requires
        forall|k: int|
            0 <= k < paired_count(fragments, ids) ==> (#[trigger] ids[k]) is Some && trimmed(
                fragments[k + 1],
            ).len() > 0,
    ensures
        entries(fragments, ids).len() == paired_count(fragments, ids),
        forall|k: int|
            0 <= k < paired_count(fragments, ids) ==> (#[trigger] entries(fragments, ids)[k]).id
                == ids[k]->Some_0,
{
    lemma_entries_upto_in_order(fragments, ids, paired_count(fragments, ids));
}

/// A marker whose body is blank gives no entry, whatever its identifier.
pub proof fn lemma_blank_body_dropped(
    fragments: Seq<Seq<char>>,
    ids: Seq<Option<Seq<char>>>,
    i: int,
)
    requires
        0 <= i < paired_count(fragments, ids),
        trimmed(fragments[i + 1]).len() == 0,
    ensures
        entry_at(fragments, ids, i).len() == 0,
        entries_upto(fragments, ids, (i + 1) as nat) == entries_upto(fragments, ids, i as nat),
{
    assert(entries_upto(fragments, ids, (i + 1) as nat) =~= entries_upto(
        fragments,
        ids,
        i as nat,
    ));
}

/// The reference list depends on the characters of the text and on nothing
/// else: two texts with the same characters have the same list.
pub proof fn lemma_same_text_same_references(a: RawText, b: RawText)
    requires
        a@ == b@,
    ensures
        references_of(a@) == references_of(b@),
{
}

} // verus!
