//! Where one sequence stands in another, and the search for the leftmost
//! such place in a byte string.

use vstd::prelude::*;

verus! {

/// `needle` stands in `hay` at offset `at`.
pub open spec fn occurs_at<A>(hay: Seq<A>, needle: Seq<A>, at: int) -> bool {
    &&& 0 <= at
    &&& at + needle.len() <= hay.len()
    &&& hay.subrange(at, at + needle.len()) == needle
}

/// `needle` stands somewhere in `hay`.
pub open spec fn occurs<A>(hay: Seq<A>, needle: Seq<A>) -> bool {
    exists|at: int| occurs_at(hay, needle, at)
}

/// `at` is the leftmost offset at which `needle` stands in `hay`.
pub open spec fn first_occurrence<A>(hay: Seq<A>, needle: Seq<A>, at: int) -> bool {
    &&& occurs_at(hay, needle, at)
    &&& forall|j: int| 0 <= j < at ==> !occurs_at(hay, needle, j)
}

/// The leftmost offset of `needle` in `hay`, where there is one.
pub open spec fn first_offset<A>(hay: Seq<A>, needle: Seq<A>) -> Option<int> {
    if occurs(hay, needle) {
        Some(choose|at: int| first_occurrence(hay, needle, at))
    } else {
        None
    }
}

/// There is at most one leftmost offset, and `first_offset` is it.
pub proof fn lemma_first_offset_is<A>(hay: Seq<A>, needle: Seq<A>, at: int)
    requires
        first_occurrence(hay, needle, at),
    ensures
        first_offset(hay, needle) == Some(at),
{
    let chosen = choose|c: int| first_occurrence(hay, needle, c);
    assert(occurs_at(hay, needle, at));
    assert(first_occurrence(hay, needle, chosen));
    if chosen < at {
        assert(!occurs_at(hay, needle, chosen));
    } else if at < chosen {
        assert(!occurs_at(hay, needle, at));
    }
}

/// Tells whether `needle` stands in `hay` at `at`.
pub fn matches_at(hay: &[u8], needle: &[u8], at: usize) -> (r: bool)
    requires
        at + needle@.len() <= hay@.len(),
    ensures
        r == occurs_at(hay@, needle@, at as int),
{
    let mut k: usize = 0;
    while k < needle.len()
        invariant
            k <= needle@.len(),
            at + needle@.len() <= hay@.len(),
            hay@.len() == hay.len(),
            forall|j: int| 0 <= j < k ==> hay@[at + j] == needle@[j],
        decreases needle@.len() - k,
    {
        if hay[at + k] != needle[k] {
            proof {
                let window = hay@.subrange(at as int, at + needle@.len());
                assert(window[k as int] == hay@[at + k]);
            }
            return false;
        }
        k += 1;
    }
    proof {
        assert(hay@.subrange(at as int, at + needle@.len()) =~= needle@);
    }
    true
}

/// The leftmost offset at which `needle` stands in `hay`, or `None` where it
/// stands nowhere.
pub fn find_first(hay: &[u8], needle: &[u8]) -> (r: Option<usize>)
    ensures
        match r {
            Some(at) => first_occurrence(hay@, needle@, at as int),
            None => !occurs(hay@, needle@),
        },
        r.is_some() == occurs(hay@, needle@),
        r matches Some(at) ==> at + needle@.len() <= hay@.len() <= usize::MAX,
{
    if needle.len() > hay.len() {
        return None;
    }
    let last: usize = hay.len() - needle.len();
    let mut at: usize = 0;
    while at < last
        invariant
            last + needle@.len() == hay@.len(),
            hay@.len() <= usize::MAX,
            at <= last,
            forall|j: int| 0 <= j < at ==> !occurs_at(hay@, needle@, j),
        decreases last - at,
    {
        if matches_at(hay, needle, at) {
            return Some(at);
        }
        at += 1;
    }
    if matches_at(hay, needle, at) {
        Some(at)
    } else {
        None
    }
}

} // verus!
