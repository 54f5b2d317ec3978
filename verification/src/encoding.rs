//! How places in a text and places in its UTF-8 encoding correspond.

use vstd::prelude::*;
use vstd::utf8::*;
use crate::scan::{first_occurrence, occurs, occurs_at};

verus! {

/// In well-formed UTF-8, the offset behind a one-byte character that starts
/// on a character boundary is a character boundary too.
pub proof fn lemma_boundary_after_ascii(bytes: Seq<u8>, k: int)
    requires
        valid_utf8(bytes),
        0 <= k < bytes.len(),
        is_char_boundary(bytes, k),
        bytes[k] <= 0x7f,
    ensures
        is_char_boundary(bytes, k + 1),
    decreases bytes.len(),
{
    reveal_with_fuel(is_char_boundary, 2);
    let tail = pop_first_scalar(bytes);
    if k > 0 {
        let width = length_of_first_scalar(bytes);
        assert(is_char_boundary(tail, k - width));
        lemma_boundary_after_ascii(tail, k - width);
    }
}

/// The encoding of two texts in a row is the two encodings in a row.
pub proof fn lemma_encode_concat(a: Seq<char>, b: Seq<char>)
    ensures
        encode_utf8(a + b) == encode_utf8(a) + encode_utf8(b),
    decreases a.len(),
{
    if a.len() == 0 {
        assert(a + b =~= b);
        assert(encode_utf8(a) + encode_utf8(b) =~= encode_utf8(b));
    } else {
        lemma_encode_concat(a.drop_first(), b);
        assert((a + b).drop_first() =~= a.drop_first() + b);
        assert((a + b)[0] == a[0]);
        assert(encode_utf8(a + b) =~= encode_utf8(a) + encode_utf8(b));
    }
}

/// Every character takes at least one byte.
pub proof fn lemma_encode_len(a: Seq<char>)
    ensures
        encode_utf8(a).len() >= a.len(),
    decreases a.len(),
{
    if a.len() > 0 {
        lemma_encode_len(a.drop_first());
    }
}

/// A longer prefix of a text has a longer encoding.
pub proof fn lemma_prefix_encoding_grows(text: Seq<char>, j: int, q: int)
    requires
        0 <= j < q <= text.len(),
    ensures
        encode_utf8(text.subrange(0, j)).len() < encode_utf8(text.subrange(0, q)).len(),
{
    let a = text.subrange(0, j);
    let b = text.subrange(j, q);
    assert(text.subrange(0, q) =~= a + b);
    lemma_encode_concat(a, b);
    lemma_encode_len(b);
}

/// A character boundary of the encoding cuts the text: the bytes before it
/// encode a prefix of the text and the bytes behind it encode the rest.
pub proof fn lemma_boundary_splits_text(text: Seq<char>, k: int) -> (q: int)
    requires
        is_char_boundary(encode_utf8(text), k),
    ensures
        0 <= q <= text.len(),
        0 <= k <= encode_utf8(text).len(),
        encode_utf8(text.subrange(0, q)) == encode_utf8(text).subrange(0, k),
        encode_utf8(text.subrange(q, text.len() as int)) == encode_utf8(text).subrange(
            k,
            encode_utf8(text).len() as int,
        ),
{
    let bytes = encode_utf8(text);
    encode_utf8_valid_utf8(text);
    let left = bytes.subrange(0, k);
    let right = bytes.subrange(k, bytes.len() as int);
    valid_utf8_split(bytes, k);
    decode_utf8_split(bytes, k);
    encode_utf8_decode_utf8(text);
    let q = decode_utf8(left).len() as int;
    assert(text == decode_utf8(left) + decode_utf8(right));
    assert(text.subrange(0, q) =~= decode_utf8(left));
    assert(text.subrange(q, text.len() as int) =~= decode_utf8(right));
    decode_utf8_encode_utf8(left);
    decode_utf8_encode_utf8(right);
    q
}

/// Where `needle` stands in `text`, its encoding stands in the encoding of
/// `text`, behind the encoding of what precedes it.
pub proof fn lemma_char_occurrence_in_bytes(text: Seq<char>, needle: Seq<char>, j: int)
    requires
        occurs_at(text, needle, j),
    ensures
        occurs_at(
            encode_utf8(text),
            encode_utf8(needle),
            encode_utf8(text.subrange(0, j)).len() as int,
        ),
{
    let head = text.subrange(0, j);
    let rest = text.subrange(j + needle.len(), text.len() as int);
    assert(text =~= head + text.subrange(j, j + needle.len()) + rest);
    lemma_encode_concat(head, needle);
    lemma_encode_concat(head + needle, rest);
    let bytes = encode_utf8(head) + encode_utf8(needle) + encode_utf8(rest);
    assert(encode_utf8(text) == bytes);
    let from = encode_utf8(head).len() as int;
    assert(bytes.subrange(from, from + encode_utf8(needle).len()) =~= encode_utf8(needle));
}

/// Where the encoding of `needle` stands in the encoding of `text` between
/// two character boundaries, `needle` stands in `text`, and the bytes before
/// and behind it encode the text before and behind it.
pub proof fn lemma_byte_occurrence_in_chars(text: Seq<char>, needle: Seq<char>, at: int) -> (q:
    int)
    requires
        occurs_at(encode_utf8(text), encode_utf8(needle), at),
        is_char_boundary(encode_utf8(text), at),
        is_char_boundary(encode_utf8(text), at + encode_utf8(needle).len()),
    ensures
        occurs_at(text, needle, q),
        encode_utf8(text.subrange(0, q)).len() == at,
        encode_utf8(text.subrange(q + needle.len(), text.len() as int)) == encode_utf8(
            text,
        ).subrange(at + encode_utf8(needle).len(), encode_utf8(text).len() as int),
{
    let bytes = encode_utf8(text);
    let needle_bytes = encode_utf8(needle);
    let end = at + needle_bytes.len();
    let q = lemma_boundary_splits_text(text, at);
    let q2 = lemma_boundary_splits_text(text, end);
    let head = text.subrange(0, q);
    lemma_encode_concat(head, needle);
    assert(bytes.subrange(0, at) + needle_bytes =~= bytes.subrange(0, end));
    encode_utf8_decode_utf8(head + needle);
    encode_utf8_decode_utf8(text.subrange(0, q2));
    assert(head + needle == text.subrange(0, q2));
    assert((head + needle).len() == q + needle.len());
    assert(q2 == q + needle.len());
    assert forall|i: int| 0 <= i < needle.len() implies text[q + i] == needle[i] by {
        assert(text.subrange(0, q2)[q + i] == text[q + i]);
        assert((head + needle)[q + i] == needle[i]);
    }
    assert(text.subrange(q, q + needle.len()) =~= needle);
    q
}

/// For a `needle` whose encoding starts and ends with a one-byte character:
/// where its encoding stands leftmost in the encoding of `text`, there
/// `needle` itself stands leftmost in `text`, and the bytes behind it encode
/// the text behind it.
pub proof fn lemma_first_occurrence_in_chars(text: Seq<char>, needle: Seq<char>, at: int) -> (q:
    int)
    requires
        first_occurrence(encode_utf8(text), encode_utf8(needle), at),
        encode_utf8(needle).len() > 0,
        encode_utf8(needle).first() <= 0x7f,
        encode_utf8(needle).last() <= 0x7f,
    ensures
        first_occurrence(text, needle, q),
        is_char_boundary(encode_utf8(text), at + encode_utf8(needle).len()),
        encode_utf8(text.subrange(0, q)).len() == at,
        encode_utf8(text.subrange(q + needle.len(), text.len() as int)) == encode_utf8(
            text,
        ).subrange(at + encode_utf8(needle).len(), encode_utf8(text).len() as int),
{
    let bytes = encode_utf8(text);
    let needle_bytes = encode_utf8(needle);
    let end = at + needle_bytes.len();
    encode_utf8_valid_utf8(text);
    let window = bytes.subrange(at, end);
    assert(window[0] == bytes[at]);
    assert(window[needle_bytes.len() - 1] == bytes[end - 1]);
    is_char_boundary_iff_not_is_continuation_byte(bytes, at);
    is_char_boundary_iff_not_is_continuation_byte(bytes, end - 1);
    lemma_boundary_after_ascii(bytes, end - 1);
    let q = lemma_byte_occurrence_in_chars(text, needle, at);
    assert forall|j: int| 0 <= j < q implies !occurs_at(text, needle, j) by {
        if occurs_at(text, needle, j) {
            lemma_char_occurrence_in_bytes(text, needle, j);
            lemma_prefix_encoding_grows(text, j, q);
        }
    }
    q
}

/// Where the encoding of `needle` stands nowhere in the encoding of `text`,
/// `needle` stands nowhere in `text`.
pub proof fn lemma_no_occurrence_in_chars(text: Seq<char>, needle: Seq<char>)
    requires
        !occurs(encode_utf8(text), encode_utf8(needle)),
    ensures
        !occurs(text, needle),
{
    assert forall|j: int| !occurs_at(text, needle, j) by {
        if occurs_at(text, needle, j) {
            lemma_char_occurrence_in_bytes(text, needle, j);
        }
    }
}

} // verus!
