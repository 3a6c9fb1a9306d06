//! Percent-encoding of file names into links, and decoding of what comes back.

use url::percent_encoding;
use vstd::prelude::*;
use vstd::utf8::*;

use crate::text;

verus! {

/// The byte `%`.
pub const PERCENT: u8 = 37;

/// Whether `b` is an ASCII hexadecimal digit, in either case.
pub open spec fn is_hex(b: u8) -> bool {
    48 <= b <= 57 || 65 <= b <= 70 || 97 <= b <= 102
}

/// The number that a hexadecimal digit stands for.
pub open spec fn hex_value(b: u8) -> int
    recommends
        is_hex(b),
{
    if b <= 57 {
        b - 48
    } else if b <= 70 {
        b - 55
    } else {
        b - 87
    }
}

/// The upper-case hexadecimal digit of a number below 16.
pub open spec fn hex_digit(n: int) -> u8
    recommends
        0 <= n < 16,
{
    if n < 10 {
        (n + 48) as u8
    } else {
        (n + 55) as u8
    }
}

/// Whether the byte sequence starts with an escape: `%` and two hexadecimal digits.
pub open spec fn starts_with_escape(s: Seq<u8>) -> bool {
    s.len() >= 3 && s[0] == PERCENT && is_hex(s[1]) && is_hex(s[2])
}

/// Whether an escape starts anywhere in the byte sequence.
pub open spec fn has_escape(s: Seq<u8>) -> bool {
    exists|i: int| 0 <= i < s.len() && starts_with_escape(#[trigger] s.skip(i))
}

/// The bytes that are left when each escape, from the left, is replaced by the byte that it
/// stands for.
pub open spec fn percent_decoded(s: Seq<u8>) -> Seq<u8>
    decreases s.len(),
{
    if s.len() == 0 {
        Seq::empty()
    } else if starts_with_escape(s) {
        seq![(hex_value(s[1]) * 16 + hex_value(s[2])) as u8] + percent_decoded(s.skip(3))
    } else {
        seq![s[0]] + percent_decoded(s.skip(1))
    }
}

/// The bytes that a link holds as escapes: controls, everything beyond ASCII, and
/// the space and ``" # < > ` ? { }``.
pub open spec fn is_encoded(b: u8) -> bool {
    b < 0x20 || b > 0x7e || b == 0x20 || b == 0x22 || b == 0x23 || b == 0x3c || b == 0x3e || b
        == 0x60 || b == 0x3f || b == 0x7b || b == 0x7d
}

/// One byte as it stands in a link.
pub open spec fn encoded_byte(b: u8) -> Seq<u8> {
    if is_encoded(b) {
        seq![PERCENT, hex_digit(b as int / 16), hex_digit(b as int % 16)]
    } else {
        seq![b]
    }
}

/// The bytes of the link to a name.
pub open spec fn percent_encoded(s: Seq<u8>) -> Seq<u8>
    decreases s.len(),
{
    if s.len() == 0 {
        Seq::empty()
    } else {
        encoded_byte(s[0]) + percent_encoded(s.skip(1))
    }
}

/// The text whose characters are the given ASCII bytes.
pub open spec fn ascii_text(s: Seq<u8>) -> Seq<char> {
    s.map_values(|b: u8| b as char)
}

/// What a percent-encoded text stands for: nothing where the bytes that it decodes to are not
/// UTF-8.
pub open spec fn decoded_text(raw: Seq<char>) -> Option<Seq<char>> {
    text::utf8_decoded(percent_decoded(encode_utf8(raw)))
}

/// Calls `url::percent_encoding::percent_encode` with `DEFAULT_ENCODE_SET` and collects the text.
/// The claim is that each byte of the set comes out as `%` and two upper-case hexadecimal digits,
/// and each other byte as the ASCII character that it is.
#[verifier::external_body]
pub(crate) fn percent_encode(bytes: &[u8]) -> (text: String)
    ensures
        text@ == ascii_text(percent_encoded(bytes@)),
{
    percent_encoding::percent_encode(bytes, percent_encoding::DEFAULT_ENCODE_SET).to_string()
}

/// Calls `url::percent_encoding::percent_decode` and `decode_utf8` on its result. The claim is that
/// the escapes in the UTF-8 bytes of `raw` are replaced from the left, that a `%` which starts
/// no escape stays, and that there is a text exactly where the outcome is UTF-8.
#[verifier::external_body]
pub(crate) fn percent_decode(raw: &str) -> (text: Option<String>)
    ensures
        text::text_view(text) == decoded_text(raw@),
{
    match percent_encoding::percent_decode(raw.as_bytes()).decode_utf8() {
        Ok(text) => Some(text.into_owned()),
        Err(_) => None,
    }
}

proof fn lemma_hex_round_trip(b: u8)
    ensures
        is_hex(hex_digit(b as int / 16)),
        is_hex(hex_digit(b as int % 16)),
        hex_value(hex_digit(b as int / 16)) * 16 + hex_value(hex_digit(b as int % 16)) == b,
{
}

/// The first byte of an encoded sequence is `%`, or the first byte of the sequence itself.
proof fn lemma_encoded_first(s: Seq<u8>)
    requires
        s.len() > 0,
    ensures
        percent_encoded(s).len() > 0,
        percent_encoded(s)[0] == (if is_encoded(s[0]) {
            PERCENT
        } else {
            s[0]
        }),
        !is_encoded(s[0]) ==> percent_encoded(s).skip(1) == percent_encoded(s.skip(1)),
{
    assert(percent_encoded(s) == encoded_byte(s[0]) + percent_encoded(s.skip(1)));
    if !is_encoded(s[0]) {
        assert(percent_encoded(s).skip(1) =~= percent_encoded(s.skip(1)));
    }
}

/// A `%` that starts no escape in a name starts none in the link to it.
proof fn lemma_encoded_escape(s: Seq<u8>)
    requires
        s.len() > 0,
        !is_encoded(s[0]),
    ensures
        starts_with_escape(percent_encoded(s)) == starts_with_escape(s),
        starts_with_escape(s) ==> percent_encoded(s).skip(3) == percent_encoded(s.skip(3)),
        starts_with_escape(s) ==> percent_encoded(s)[1] == s[1] && percent_encoded(s)[2] == s[2],
{
    let e = percent_encoded(s);
    lemma_encoded_first(s);
    if s.len() > 1 {
        let s1 = s.skip(1);
        lemma_encoded_first(s1);
        assert(e[1] == e.skip(1)[0]);
        assert(s1[0] == s[1]);
        if s.len() > 2 && !is_encoded(s[1]) {
            let s2 = s1.skip(1);
            lemma_encoded_first(s2);
            assert(e[2] == e.skip(1).skip(1)[0]);
            assert(s2[0] == s[2]);
            if !is_encoded(s[2]) {
                assert(s2.skip(1) =~= s.skip(3));
                assert(e.skip(1).skip(1).skip(1) =~= e.skip(3));
            }
        }
        if s.len() == 2 && !is_encoded(s[1]) {
            assert(e.skip(1).len() == 1);
        }
    }
}

/// Whether a sequence has an escape, by its head and its tail.
proof fn lemma_has_escape_step(s: Seq<u8>)
    requires
        s.len() > 0,
    ensures
        has_escape(s) == (starts_with_escape(s) || has_escape(s.skip(1))),
{
    assert(s.skip(0) =~= s);
    if has_escape(s) {
        let i = choose|i: int| 0 <= i < s.len() && starts_with_escape(#[trigger] s.skip(i));
        if i > 0 {
            assert(s.skip(1).skip(i - 1) =~= s.skip(i));
        }
    }
    if has_escape(s.skip(1)) {
        let i = choose|i: int|
            0 <= i < s.skip(1).len() && starts_with_escape(#[trigger] s.skip(1).skip(i));
        assert(s.skip(1).skip(i) =~= s.skip(i + 1));
    }
}

/// A name with an escape in it decodes to less than the name; one without decodes to itself.
proof fn lemma_decoded_encoded(s: Seq<u8>)
    ensures
        percent_decoded(percent_encoded(s)).len() <= s.len(),
        has_escape(s) ==> percent_decoded(percent_encoded(s)).len() < s.len(),
        !has_escape(s) ==> percent_decoded(percent_encoded(s)) == s,
    decreases s.len(),
{
    if s.len() == 0 {
        assert(percent_decoded(percent_encoded(s)) =~= s);
    } else {
        let e = percent_encoded(s);
        let rest = s.skip(1);
        lemma_has_escape_step(s);
        lemma_decoded_encoded(rest);
        lemma_encoded_first(s);
        if is_encoded(s[0]) {
            lemma_hex_round_trip(s[0]);
            assert(e.skip(3) =~= percent_encoded(rest));
            assert(percent_decoded(e) =~= seq![s[0]] + percent_decoded(percent_encoded(rest)));
            assert(!starts_with_escape(s));
        } else {
            lemma_encoded_escape(s);
            if starts_with_escape(s) {
                lemma_decoded_encoded(s.skip(3));
            } else {
                assert(percent_decoded(e) =~= seq![s[0]] + percent_decoded(percent_encoded(rest)));
            }
        }
        if !has_escape(s) {
            assert(seq![s[0]] + rest =~= s);
        }
    }
}

/// Every byte of a link is printable ASCII, and none is a quote, a space or an angle bracket:
/// a link can stand unescaped between the quotes of an attribute.
pub proof fn lemma_link_is_plain(s: Seq<u8>)
    ensures
        forall|i: int|
            0 <= i < percent_encoded(s).len() ==> {
                let b = #[trigger] percent_encoded(s)[i];
                0x20 < b < 0x7f && b != 0x22 && b != 0x3c && b != 0x3e
            },
    decreases s.len(),
{
    if s.len() > 0 {
        lemma_link_is_plain(s.skip(1));
        lemma_hex_round_trip(s[0]);
        let head = encoded_byte(s[0]);
        let tail = percent_encoded(s.skip(1));
        assert forall|i: int| 0 <= i < percent_encoded(s).len() implies {
            let b = #[trigger] percent_encoded(s)[i];
            0x20 < b < 0x7f && b != 0x22 && b != 0x3c && b != 0x3e
        } by {
            if i >= head.len() {
                assert(percent_encoded(s)[i] == tail[i - head.len()]);
            }
        }
    }
}

/// The UTF-8 bytes of a link are the bytes that it was made of.
pub proof fn lemma_link_bytes(s: Seq<u8>)
    ensures
        encode_utf8(ascii_text(percent_encoded(s))) == percent_encoded(s),
{
    let e = percent_encoded(s);
    let text = ascii_text(e);
    lemma_link_is_plain(s);
    assert forall|i: int| 0 <= i < text.len() implies 0 <= #[trigger] text[i] as nat <= 127 by {
        assert(text[i] == e[i] as char);
    }
    is_ascii_chars_encode_utf8(text);
    assert(encode_utf8(text) =~= e);
}

/// A link decodes to the name that it was made of exactly where no escape stands in the name
/// itself.
pub proof fn lemma_link_round_trip(name: Seq<u8>)
    ensures
        percent_decoded(encode_utf8(ascii_text(percent_encoded(name)))) == name <==> !has_escape(
            name,
        ),
{
    lemma_link_bytes(name);
    lemma_decoded_encoded(name);
}

/// The link to a text without an escape in it is decoded to that text.
pub proof fn lemma_link_to_text_round_trip(text: Seq<char>)
    requires
        !has_escape(encode_utf8(text)),
    ensures
        decoded_text(ascii_text(percent_encoded(encode_utf8(text)))) == Some(text),
{
    lemma_link_round_trip(encode_utf8(text));
    encode_utf8_valid_utf8(text);
    encode_utf8_decode_utf8(text);
}

/// Escapes do not reach across a slash.
pub(crate) proof fn lemma_decoded_concat(a: Seq<u8>, b: Seq<u8>)
    requires
        a.len() > 0 ==> a.last() == text::SLASH,
    ensures
        percent_decoded(a + b) == percent_decoded(a) + percent_decoded(b),
    decreases a.len(),
{
    if a.len() == 0 {
        assert(a + b =~= b);
        assert(percent_decoded(a) + percent_decoded(b) =~= percent_decoded(b));
    } else if starts_with_escape(a) {
        assert((a + b).skip(3) =~= a.skip(3) + b);
        lemma_decoded_concat(a.skip(3), b);
        assert(percent_decoded(a + b) =~= percent_decoded(a) + percent_decoded(b));
    } else {
        assert((a + b).skip(1) =~= a.skip(1) + b);
        assert(!starts_with_escape(a + b)) by {
            if a.len() == 2 {
                assert((a + b)[1] == a.last());
            }
        }
        lemma_decoded_concat(a.skip(1), b);
        assert(percent_decoded(a + b) =~= percent_decoded(a) + percent_decoded(b));
    }
}

/// Bytes without an escape in them are left as they are.
pub proof fn lemma_decoded_plain(s: Seq<u8>)
    requires
        !has_escape(s),
    ensures
        percent_decoded(s) == s,
    decreases s.len(),
{
    if s.len() > 0 {
        lemma_has_escape_step(s);
        lemma_decoded_plain(s.skip(1));
        assert(seq![s[0]] + s.skip(1) =~= s);
    } else {
        assert(percent_decoded(s) =~= s);
    }
}

/// A slash at the end makes no escape.
pub(crate) proof fn lemma_no_escape_with_slash(s: Seq<u8>)
    requires
        !has_escape(s),
    ensures
        !has_escape(s.push(text::SLASH)),
{
    let t = s.push(text::SLASH);
    assert forall|i: int| 0 <= i < t.len() implies !starts_with_escape(#[trigger] t.skip(i)) by {
        if starts_with_escape(t.skip(i)) {
            assert(t.skip(i)[0] == t[i] && t.skip(i)[1] == t[i + 1] && t.skip(i)[2] == t[i + 2]);
            assert(i + 2 < s.len());
            assert(s.skip(i)[0] == t[i] && s.skip(i)[1] == t[i + 1] && s.skip(i)[2] == t[i + 2]);
            assert(starts_with_escape(s.skip(i)));
        }
    }
}

/// An escape starts where a `%` is followed by two hexadecimal digits, and nowhere else.
pub proof fn lemma_has_escape(s: Seq<u8>)
    ensures
        has_escape(s) <==> exists|i: int|
            0 <= i < s.len() - 2 && #[trigger] s[i] == 37 && (48 <= s[i + 1] <= 57 || 65 <= s[i + 1]
                <= 70 || 97 <= s[i + 1] <= 102) && (48 <= s[i + 2] <= 57 || 65 <= s[i + 2] <= 70
                || 97 <= s[i + 2] <= 102),
{
    if has_escape(s) {
        let i = choose|i: int| 0 <= i < s.len() && starts_with_escape(#[trigger] s.skip(i));
        assert(s.skip(i)[0] == s[i] && s.skip(i)[1] == s[i + 1] && s.skip(i)[2] == s[i + 2]);
    }
    if exists|i: int|
        0 <= i < s.len() - 2 && #[trigger] s[i] == 37 && (48 <= s[i + 1] <= 57 || 65 <= s[i + 1]
            <= 70 || 97 <= s[i + 1] <= 102) && (48 <= s[i + 2] <= 57 || 65 <= s[i + 2] <= 70 || 97
            <= s[i + 2] <= 102) {
        let i = choose|i: int|
            0 <= i < s.len() - 2 && #[trigger] s[i] == 37 && (48 <= s[i + 1] <= 57 || 65 <= s[i + 1]
                <= 70 || 97 <= s[i + 1] <= 102) && (48 <= s[i + 2] <= 57 || 65 <= s[i + 2] <= 70
                || 97 <= s[i + 2] <= 102);
        assert(s.skip(i)[0] == s[i] && s.skip(i)[1] == s[i + 1] && s.skip(i)[2] == s[i + 2]);
        assert(starts_with_escape(s.skip(i)));
    }
}

/// A `%` with two hexadecimal digits behind it is read as the byte that the digits write, and what
/// follows is read by itself.
pub proof fn lemma_escape_is_decoded(high: u8, low: u8, rest: Seq<u8>)
    requires
        48 <= high <= 57 || 65 <= high <= 70 || 97 <= high <= 102,
        48 <= low <= 57 || 65 <= low <= 70 || 97 <= low <= 102,
    ensures
        ({
            let h = if high <= 57 { high - 48 } else if high <= 70 { high - 55 } else { high - 87 };
            let l = if low <= 57 { low - 48 } else if low <= 70 { low - 55 } else { low - 87 };
            let decoded = percent_decoded(seq![37u8, high, low] + rest);
            decoded.len() == percent_decoded(rest).len() + 1 && decoded[0] == 16 * h + l
                && decoded.skip(1) == percent_decoded(rest)
        }),
{
    let s = seq![37u8, high, low] + rest;
    assert(s.skip(3) =~= rest);
    assert(percent_decoded(s).skip(1) =~= percent_decoded(rest));
}

/// A byte that starts no escape is read as itself, and what follows is read by itself.
pub proof fn lemma_other_byte_is_kept(b: u8, rest: Seq<u8>)
    requires
        b != 37 || rest.len() < 2 || !(48 <= rest[0] <= 57 || 65 <= rest[0] <= 70 || 97 <= rest[0]
            <= 102) || !(48 <= rest[1] <= 57 || 65 <= rest[1] <= 70 || 97 <= rest[1] <= 102),
    ensures
        percent_decoded(seq![b] + rest) == seq![b] + percent_decoded(rest),
        percent_decoded(Seq::empty()) == Seq::<u8>::empty(),
{
    let s = seq![b] + rest;
    assert(s.skip(1) =~= rest);
    if rest.len() >= 2 {
        assert(s[1] == rest[0] && s[2] == rest[1]);
    }
}

/// A text stands for another one exactly where its bytes are read as the bytes of that one.
pub proof fn lemma_decoded_text(raw: Seq<char>, text: Seq<char>)
    ensures
        decoded_text(raw) == Some(text) <==> percent_decoded(encode_utf8(raw)) == encode_utf8(text),
        decoded_text(raw) is None <==> !valid_utf8(percent_decoded(encode_utf8(raw))),
{
    text::lemma_text_of_bytes(percent_decoded(encode_utf8(raw)), text);
}

/// The link to two names in a row is that to the one followed by that to the other.
pub proof fn lemma_link_concat(a: Seq<u8>, b: Seq<u8>)
    ensures
        percent_encoded(a + b) == percent_encoded(a) + percent_encoded(b),
    decreases a.len(),
{
    if a.len() == 0 {
        assert(a + b =~= b);
        assert(percent_encoded(a) + percent_encoded(b) =~= percent_encoded(b));
    } else {
        lemma_link_concat(a.skip(1), b);
        assert((a + b).skip(1) =~= a.skip(1) + b);
        assert(percent_encoded(a + b) =~= percent_encoded(a) + percent_encoded(b));
    }
}

/// A byte of a name stands in a link as it is, unless it is a control, the space, beyond ASCII or one
/// of ``" # < > ? ` { }``: then it stands there as an escape that is read as the byte.
pub proof fn lemma_link_byte(b: u8)
    ensures
        0x20 < b < 0x7f && b != 0x22 && b != 0x23 && b != 0x3c && b != 0x3e && b != 0x3f && b
            != 0x60 && b != 0x7b && b != 0x7d ==> percent_encoded(seq![b]) == seq![b],
        !(0x20 < b < 0x7f && b != 0x22 && b != 0x23 && b != 0x3c && b != 0x3e && b != 0x3f && b
            != 0x60 && b != 0x7b && b != 0x7d) ==> percent_encoded(seq![b]).len() == 3
            && percent_encoded(seq![b])[0] == 37 && percent_decoded(percent_encoded(seq![b]))
            == seq![b],
{
    let s = seq![b];
    reveal_with_fuel(percent_encoded, 2);
    assert(s.skip(1) =~= Seq::empty());
    assert(percent_encoded(s) =~= encoded_byte(b));
    if is_encoded(b) {
        lemma_hex_round_trip(b);
        let e = percent_encoded(s);
        assert(percent_decoded(e) =~= s) by {
            reveal_with_fuel(percent_decoded, 2);
            assert(e.skip(3) =~= Seq::empty());
        }
    }
}

/// The characters of a link are its bytes, one by one.
pub proof fn lemma_ascii_text(s: Seq<u8>)
    requires
        forall|i: int| 0 <= i < s.len() ==> s[i] < 0x80,
    ensures
        ascii_text(s).len() == s.len(),
        forall|i: int| 0 <= i < s.len() ==> #[trigger] ascii_text(s)[i] as int == s[i],
{
}

} // verus!
