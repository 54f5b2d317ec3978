//! The text of a document, its reference section and the entries of that
//! section.

use vstd::prelude::*;
use vstd::string::*;
use vstd::utf8::*;
use crate::encoding::{
    lemma_char_occurrence_in_bytes, lemma_encode_len, lemma_first_occurrence_in_chars,
    lemma_no_occurrence_in_chars,
};
use crate::laws::lemma_contents_not_empty;
use crate::matching::{capture_group, captured_texts, split_by, split_fragments, trim_of, trimmed};
use crate::scan::{
    find_first, first_occurrence, first_offset, lemma_first_offset_is, matches_at, occurs,
    occurs_at,
};

verus! {

/// The line that opens a reference list: a line feed, the word, a line feed.
pub open spec fn header() -> Seq<char> {
    "\nReferences\n"@
}

/// The marker that the first entry of a bracketed numeric list carries.
pub open spec fn first_marker() -> Seq<char> {
    "[1]"@
}

/// The reference section of `text`: the characters behind the leftmost
/// header, up to the end of the text; `None` where the text holds no header.
pub open spec fn section_of(text: Seq<char>) -> Option<Seq<char>> {
    match first_offset(text, header()) {
        Some(at) => Some(text.subrange(at + header().len(), text.len() as int)),
        None => None,
    }
}

/// The header is twelve one-byte characters.
pub proof fn lemma_header_bytes()
    ensures
        header().len() == 12,
        encode_utf8(header()).len() == 12,
        encode_utf8(header()).first() <= 0x7f,
        encode_utf8(header()).last() <= 0x7f,
{
    reveal_strlit("\nReferences\n");
    assert(is_ascii_chars(header()));
    is_ascii_chars_encode_utf8(header());
    assert(header()[0] == '\n');
    assert(header()[11] == '\n');
}

/// The first marker is three one-byte characters.
pub proof fn lemma_marker_bytes()
    ensures
        first_marker().len() == 3,
        encode_utf8(first_marker()).len() == 3,
        encode_utf8(first_marker()).first() <= 0x7f,
        encode_utf8(first_marker()).last() <= 0x7f,
{
    reveal_strlit("[1]");
    assert(is_ascii_chars(first_marker()));
    is_ascii_chars_encode_utf8(first_marker());
    assert(first_marker()[0] == '[');
    assert(first_marker()[2] == ']');
}

/// Locates the reference section of `text`: the text behind the leftmost
/// header, as a slice of `text` that runs to its end, or `None` where `text`
/// holds no header. A header inside the list itself is not looked for.
pub fn locate_reference_section(text: &str) -> (r: Option<&str>)
    ensures
        r.is_some() == occurs(text@, header()),
        r matches Some(section) ==> exists|at: int|
            {
                &&& #[trigger] first_occurrence(text@, header(), at)
                &&& section@ == text@.subrange(at + header().len(), text@.len() as int)
                &&& text@ == text@.subrange(0, at) + header() + section@
            },
        r matches Some(section) ==> section_of(text@) == Some(section@),
        r is None ==> section_of(text@) is None,
{
    let hay = text.as_bytes();
    let needle = "\nReferences\n".as_bytes();
    match find_first(hay, needle) {
        None => {
            proof {
                lemma_no_occurrence_in_chars(text@, header());
            }
            None
        },
        Some(at) => {
            let end: usize = at + needle.len();
            let ghost q: int;
            proof {
                lemma_header_bytes();
                q = lemma_first_occurrence_in_chars(text@, header(), at as int);
                lemma_first_offset_is(text@, header(), q);
            }
            let (_, section) = text.split_at(end);
            proof {
                let rest = text@.subrange(q + header().len(), text@.len() as int);
                assert(section.spec_bytes() == encode_utf8(rest));
                encode_utf8_decode_utf8(rest);
                encode_utf8_decode_utf8(section@);
                assert(section@ == rest);
                assert(text@ =~= text@.subrange(0, q) + header() + section@);
            }
            Some(section)
        },
    }
}

/// Raw text extracted from a document.
#[derive(Debug, Clone)]
pub struct RawText {
    pub inner: String,
}

impl View for RawText {
    type V = Seq<char>;

    open spec fn view(&self) -> Seq<char> {
        self.inner@
    }
}

impl RawText {
    /// Locates the reference section by its header: what
    /// `locate_reference_section` finds in this text.
    pub fn reference_section_by_header(&self) -> (r: Option<&str>)
        ensures
            r.is_some() == occurs(self@, header()),
            r matches Some(section) ==> exists|at: int|
                {
                    &&& #[trigger] first_occurrence(self@, header(), at)
                    &&& section@ == self@.subrange(at + header().len(), self@.len() as int)
                    &&& self@ == self@.subrange(0, at) + header() + section@
                },
            r matches Some(section) ==> section_of(self@) == Some(section@),
            r is None ==> section_of(self@) is None,
    {
        locate_reference_section(self.inner.as_str())
    }

    /// Infers the delimiter convention of the reference section: that of
    /// `infer_delimiter_pattern` on the section, `None` where the text has no
    /// reference section.
    pub fn reference_item_pattern(&self) -> (r: Option<DelimiterPattern>)
        ensures
            r == pattern_of(self@),
    {
        match self.reference_section_by_header() {
            Some(section) => infer_delimiter_pattern(section),
            None => None,
        }
    }

    /// The entries of the reference list, in the order of their markers, or
    /// `None` where the text has no reference section, where the section does
    /// not open with the first marker of a known convention, or where the
    /// `regex` crate rejects the convention's pattern.
    pub fn references(&self) -> (r: Option<Vec<Reference>>)
        ensures
            r.deep_view() == references_of(self@),
            r matches Some(list) ==> forall|k: int|
                0 <= k < list@.len() ==> (#[trigger] list@[k]).inner@.len() > 0,
    {
        let section = match self.reference_section_by_header() {
            Some(section) => section,
            None => { return None; },
        };
        match infer_delimiter_pattern(section) {
            Some(pattern) => segment(section, pattern),
            None => None,
        }
    }
}

/// A convention by which the entries of a reference list are marked.
#[derive(Debug, Clone, Copy, PartialEq, Eq)]
pub enum DelimiterPattern {
    /// A decimal number in square brackets, then white space: `[12] `.
    BracketedNumeric,
}

impl DelimiterPattern {
    /// The regular expression that finds a marker of this convention.
    pub open spec fn spec_source(self) -> Seq<char> {
        match self {
            DelimiterPattern::BracketedNumeric => "\\[(?P<id>[0-9]+)\\]\\s+"@,
        }
    }

    /// The name of the capture group that holds a marker's identifier.
    pub open spec fn spec_id_group(self) -> Seq<char> {
        "id"@
    }

    /// The regular expression that finds a marker of this convention: an
    /// opening bracket, one or more decimal digits captured as `id`, a closing
    /// bracket, one or more white space characters.
    pub fn source(&self) -> (r: &'static str)
        ensures
            r@ == self.spec_source(),
    {
        match self {
            DelimiterPattern::BracketedNumeric => "\\[(?P<id>[0-9]+)\\]\\s+",
        }
    }

    /// The name of the capture group that holds a marker's identifier.
    pub fn id_group(&self) -> (r: &'static str)
        ensures
            r@ == self.spec_id_group(),
    {
        "id"
    }
}

/// The convention that `section` is read by: the bracketed numeric one where
/// the section opens with `[1]`, none otherwise.
pub open spec fn pattern_for(section: Seq<char>) -> Option<DelimiterPattern> {
    if occurs_at(section, first_marker(), 0) {
        Some(DelimiterPattern::BracketedNumeric)
    } else {
        None
    }
}

/// The convention of the reference section of `text`.
pub open spec fn pattern_of(text: Seq<char>) -> Option<DelimiterPattern> {
    match section_of(text) {
        Some(section) => pattern_for(section),
        None => None,
    }
}

/// Infers the convention of a reference section from its first characters:
/// the bracketed numeric one exactly where the section opens with `[1]`.
/// Only the first marker is looked at.
pub fn infer_delimiter_pattern(section: &str) -> (r: Option<DelimiterPattern>)
    ensures
        r == pattern_for(section@),
        r is Some <==> section@.len() >= 3 && section@.subrange(0, 3) == first_marker(),
{
    let bytes = section.as_bytes();
    let marker = "[1]".as_bytes();
    proof {
        lemma_marker_bytes();
    }
    if marker.len() <= bytes.len() && matches_at(bytes, marker, 0) {
        proof {
            let q = lemma_first_occurrence_in_chars(section@, first_marker(), 0);
            lemma_encode_len(section@.subrange(0, q));
        }
        Some(DelimiterPattern::BracketedNumeric)
    } else {
        proof {
            if occurs_at(section@, first_marker(), 0) {
                lemma_char_occurrence_in_bytes(section@, first_marker(), 0);
                assert(section@.subrange(0, 0) =~= Seq::<char>::empty());
            }
        }
        None
    }
}

/// One entry of a reference list.
#[derive(Debug, Clone)]
pub struct Reference {
    /// The identifier as the marker gives it, kept as text.
    pub reference_id: String,
    /// The body of the entry, without white space at its ends; never empty in
    /// an entry that `pair_entries` made.
    pub inner: String,
}

/// What a `Reference` stands for.
pub struct Entry {
    pub id: Seq<char>,
    pub content: Seq<char>,
}

impl View for Reference {
    type V = Entry;

    open spec fn view(&self) -> Entry {
        Entry { id: self.reference_id@, content: self.inner@ }
    }
}

impl DeepView for Reference {
    type V = Entry;

    open spec fn deep_view(&self) -> Entry {
        self@
    }
}

/// How many markers are paired with a body: each fragment but the first is a
/// body, and the pairing ends with the shorter of the two sequences.
pub open spec fn paired_count(fragments: Seq<Seq<char>>, ids: Seq<Option<Seq<char>>>) -> nat {
    if fragments.len() == 0 {
        0
    } else if fragments.len() - 1 <= ids.len() {
        (fragments.len() - 1) as nat
    } else {
        ids.len()
    }
}

/// What the marker number `i` gives: one entry, or none where the marker has
/// no identifier or its body is blank. Its body is the fragment behind it.
pub open spec fn entry_at(fragments: Seq<Seq<char>>, ids: Seq<Option<Seq<char>>>, i: int) -> Seq<
    Entry,
> {
    match ids[i] {
        Some(id) => if trimmed(fragments[i + 1]).len() > 0 {
            seq![Entry { id: id, content: trimmed(fragments[i + 1]) }]
        } else {
            Seq::empty()
        },
        None => Seq::empty(),
    }
}

/// The entries that the first `n` markers give, in the order of the markers.
pub open spec fn entries_upto(
    fragments: Seq<Seq<char>>,
    ids: Seq<Option<Seq<char>>>,
    n: nat,
) -> Seq<Entry>
    decreases n,
{
    if n == 0 {
        Seq::empty()
    } else {
        entries_upto(fragments, ids, (n - 1) as nat) + entry_at(fragments, ids, n - 1)
    }
}

/// The entries of a section that was cut into `fragments` at markers with the
/// identifiers `ids`.
pub open spec fn entries(fragments: Seq<Seq<char>>, ids: Seq<Option<Seq<char>>>) -> Seq<Entry> {
    entries_upto(fragments, ids, paired_count(fragments, ids))
}

/// The entries of `section` under `pattern`, or `None` where the `regex`
/// crate rejects the pattern.
pub open spec fn segmented(section: Seq<char>, pattern: DelimiterPattern) -> Option<Seq<Entry>> {
    match (
        split_fragments(pattern.spec_source(), section),
        captured_texts(pattern.spec_source(), pattern.spec_id_group(), section),
    ) {
        (Some(fragments), Some(ids)) => Some(entries(fragments, ids)),
        _ => None,
    }
}

/// The entries of the reference list of `text`.
pub open spec fn references_of(text: Seq<char>) -> Option<Seq<Entry>> {
    match (section_of(text), pattern_of(text)) {
        (Some(section), Some(pattern)) => segmented(section, pattern),
        _ => None,
    }
}

/// Pairs bodies with identifiers. `fragments` are the pieces between the
/// markers of a section, the piece before the first marker included; `ids`
/// are the markers' identifiers. The first fragment is left out, the next ones
/// are paired with the identifiers by position, each body is trimmed, and a
/// pair without identifier or with a blank body is dropped.
pub fn pair_entries(fragments: &Vec<String>, ids: &Vec<Option<String>>) -> (r: Vec<Reference>)
    ensures
        r.deep_view() == entries(fragments.deep_view(), ids.deep_view()),
        forall|k: int| 0 <= k < r@.len() ==> (#[trigger] r@[k]).inner@.len() > 0,
{
    let ghost frags = fragments.deep_view();
    let ghost idv = ids.deep_view();
    let count: usize = if fragments.len() == 0 {
        0
    } else if fragments.len() - 1 <= ids.len() {
        fragments.len() - 1
    } else {
        ids.len()
    };
    let mut out: Vec<Reference> = Vec::new();
    let mut i: usize = 0;
    proof {
        assert(out.deep_view() =~= Seq::<Entry>::empty());
    }
    while i < count
        invariant
            i <= count,
            count == paired_count(frags, idv),
            frags == fragments.deep_view(),
            idv == ids.deep_view(),
            out.deep_view() == entries_upto(frags, idv, i as nat),
        decreases count - i,
    {
        let ghost before = out.deep_view();
        proof {
            assert(frags[i + 1] == fragments@[i + 1]@);
            assert(idv[i as int] == ids@[i as int].deep_view());
        }
        match &ids[i] {
            Some(id) => {
                let body = trim_of(fragments[i + 1].as_str());
                if !body.is_empty() {
                    let entry = Reference { reference_id: id.clone(), inner: body.to_owned() };
                    out.push(entry);
                    proof {
                        assert(out.deep_view() =~= before + seq![entry@]);
                    }
                } else {
                    proof {
                        assert(out.deep_view() =~= before + Seq::<Entry>::empty());
                    }
                }
            },
            None => {
                proof {
                    assert(out.deep_view() =~= before + Seq::<Entry>::empty());
                }
            },
        }
        i += 1;
    }
    proof {
        lemma_contents_not_empty(frags, idv);
        assert forall|k: int| 0 <= k < out@.len() implies (#[trigger] out@[k]).inner@.len() > 0 by {
            assert(out.deep_view()[k] == out@[k]@);
        }
    }
    out
}

/// Cuts a reference section into its entries by the markers of `pattern`.
/// `None` only where the `regex` crate rejects the pattern.
pub fn segment(section: &str, pattern: DelimiterPattern) -> (r: Option<Vec<Reference>>)
    ensures
        r.deep_view() == segmented(section@, pattern),
        r matches Some(list) ==> forall|k: int|
            0 <= k < list@.len() ==> (#[trigger] list@[k]).inner@.len() > 0,
{
    let fragments = split_by(pattern.source(), section);
    let ids = capture_group(pattern.source(), pattern.id_group(), section);
    match (fragments, ids) {
        (Some(fragments), Some(ids)) => Some(pair_entries(&fragments, &ids)),
        _ => None,
    }
}

} // verus!
