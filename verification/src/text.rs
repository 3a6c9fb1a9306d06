//! Bytes as text.

use vstd::prelude::*;
use vstd::utf8::*;

verus! {

/// The byte `/`.
pub const SLASH: u8 = 47;

/// The byte `.`.
pub const DOT: u8 = 46;

/// The view of an optional text.
pub open spec fn text_view(text: Option<String>) -> Option<Seq<char>> {
    match text {
        Some(t) => Some(t@),
        None => None,
    }
}

/// The views of a sequence of texts.
pub open spec fn text_views(texts: Seq<String>) -> Seq<Seq<char>> {
    texts.map_values(|t: String| t@)
}

/// The text that bytes spell, where they are UTF-8.
pub open spec fn utf8_decoded(bytes: Seq<u8>) -> Option<Seq<char>> {
    if valid_utf8(bytes) {
        Some(decode_utf8(bytes))
    } else {
        None
    }
}

/// The index of the first `b`, or the length where there is none.
pub open spec fn first_index(s: Seq<u8>, b: u8) -> int
    decreases s.len(),
{
    if s.len() == 0 || s[0] == b {
        0
    } else {
        1 + first_index(s.skip(1), b)
    }
}

/// What stands before the first `b`.
pub open spec fn before_first(s: Seq<u8>, b: u8) -> Seq<u8> {
    s.take(first_index(s, b))
}

/// What stands behind the first `b`: nothing where there is none.
pub open spec fn after_first(s: Seq<u8>, b: u8) -> Seq<u8> {
    if first_index(s, b) < s.len() {
        s.skip(first_index(s, b) + 1)
    } else {
        Seq::empty()
    }
}

/// The first index is within the sequence, holds `b` unless it is the length, and nothing before
/// it does.
pub proof fn lemma_first_index(s: Seq<u8>, b: u8)
    ensures
        0 <= first_index(s, b) <= s.len(),
        forall|i: int| 0 <= i < first_index(s, b) ==> s[i] != b,
        first_index(s, b) < s.len() ==> s[first_index(s, b)] == b,
    decreases s.len(),
{
    if s.len() > 0 && s[0] != b {
        lemma_first_index(s.skip(1), b);
        assert forall|i: int| 0 <= i < first_index(s, b) implies s[i] != b by {
            if i > 0 {
                assert(s.skip(1)[i - 1] == s[i]);
            }
        }
    }
}

/// The text that `String::from_utf8_lossy` makes of bytes that are not UTF-8.
pub uninterp spec fn utf8_lossy(bytes: Seq<u8>) -> Seq<char>;

/// The text that shows bytes: what they spell where they are UTF-8, and something like it where
/// they are not.
pub open spec fn lossy_text(bytes: Seq<u8>) -> Seq<char> {
    if valid_utf8(bytes) {
        decode_utf8(bytes)
    } else {
        utf8_lossy(bytes)
    }
}

/// Calls `String::from_utf8_lossy`. The claim is that the text is what the bytes spell where they
/// are UTF-8, and depends on the bytes alone where they are not; with what the offending bytes
/// are replaced is left unsaid.
#[verifier::external_body]
pub(crate) fn text_lossy(bytes: &[u8]) -> (text: String)
    ensures
        text@ == (if valid_utf8(bytes@) {
            decode_utf8(bytes@)
        } else {
            utf8_lossy(bytes@)
        }),
{
    String::from_utf8_lossy(bytes).into_owned()
}

/// Calls `std::str::from_utf8`. The claim is that it gives the text that the bytes spell, and an
/// error exactly where they are not UTF-8.
#[verifier::external_body]
pub(crate) fn text_of_utf8(bytes: &[u8]) -> (text: Option<String>)
    ensures
        text_view(text) == utf8_decoded(bytes@),
{
    match std::str::from_utf8(bytes) {
        Ok(text) => Some(text.to_owned()),
        Err(_) => None,
    }
}

/// The UTF-8 bytes of two texts in a row.
pub(crate) proof fn lemma_encode_concat(a: Seq<char>, b: Seq<char>)
    ensures
        encode_utf8(a + b) == encode_utf8(a) + encode_utf8(b),
    decreases a.len(),
{
    if a.len() == 0 {
        assert(a + b =~= b);
        assert(encode_utf8(a) + encode_utf8(b) =~= encode_utf8(b));
    } else {
        lemma_encode_concat(a.drop_first(), b);
        assert((a + b).drop_first() =~= a.drop_first() + b);
        assert(encode_utf8(a + b) =~= encode_utf8(a) + encode_utf8(b));
    }
}

/// The text that two spellings in a row spell.
pub(crate) proof fn lemma_decode_concat(a: Seq<u8>, b: Seq<u8>)
    requires
        valid_utf8(a),
        valid_utf8(b),
    ensures
        valid_utf8(a + b),
        decode_utf8(a + b) == decode_utf8(a) + decode_utf8(b),
{
    let text = decode_utf8(a) + decode_utf8(b);
    lemma_encode_concat(decode_utf8(a), decode_utf8(b));
    decode_utf8_encode_utf8(a);
    decode_utf8_encode_utf8(b);
    encode_utf8_valid_utf8(text);
    encode_utf8_decode_utf8(text);
}

/// The UTF-8 bytes of an ASCII character.
pub(crate) proof fn lemma_encode_ascii(c: char)
    requires
        c as nat <= 127,
    ensures
        encode_utf8(seq![c]) == seq![c as u8],
{
    is_ascii_chars_encode_utf8(seq![c]);
    assert(encode_utf8(seq![c]) =~= seq![c as u8]);
}

/// What stands before the first `b`, the byte itself and what stands behind it make up the whole.
/// Where there is no such byte, everything stands before it.
pub proof fn lemma_split_at_first(s: Seq<u8>, b: u8)
    ensures
        forall|i: int| 0 <= i < before_first(s, b).len() ==> before_first(s, b)[i] != b,
        s.contains(b) ==> s == before_first(s, b) + seq![b] + after_first(s, b),
        !s.contains(b) ==> before_first(s, b) == s && after_first(s, b).len() == 0,
{
    let i = first_index(s, b);
    lemma_first_index(s, b);
    if s.contains(b) {
        let k = choose|k: int| 0 <= k < s.len() && s[k] == b;
        assert(i <= k);
        assert(s =~= s.take(i) + seq![b] + s.skip(i + 1));
    } else {
        assert(i == s.len());
        assert(s.take(i) =~= s);
    }
}

/// A text is read off its UTF-8 bytes, and off no others.
pub proof fn lemma_text_of_bytes(bytes: Seq<u8>, text: Seq<char>)
    ensures
        utf8_decoded(bytes) == Some(text) <==> bytes == encode_utf8(text),
        utf8_decoded(bytes) is None <==> !valid_utf8(bytes),
        bytes == encode_utf8(text) ==> lossy_text(bytes) == text,
{
    encode_utf8_valid_utf8(text);
    encode_utf8_decode_utf8(text);
    if valid_utf8(bytes) {
        decode_utf8_encode_utf8(bytes);
    }
}

/// The views of texts are those of each text, one by one.
pub proof fn lemma_text_views(texts: Seq<String>, text: Option<String>)
    ensures
        text_views(texts).len() == texts.len(),
        forall|i: int| 0 <= i < texts.len() ==> #[trigger] text_views(texts)[i] == texts[i]@,
        text is None <==> text_view(text) is None,
        text matches Some(t) ==> text_view(text) == Some(t@),
{
}

/// The first `b` of a sequence stays where it is when something follows behind another `b`.
pub(crate) proof fn lemma_first_kept(s: Seq<u8>, b: u8, rest: Seq<u8>)
    ensures
        first_index(s.push(b) + rest, b) == first_index(s, b),
    decreases s.len(),
{
    let all = s.push(b) + rest;
    if s.len() > 0 && s[0] != b {
        lemma_first_kept(s.skip(1), b, rest);
        assert(all.skip(1) =~= s.skip(1).push(b) + rest);
    }
}

} // verus!
