//! The header that names a download.

use vstd::prelude::*;
use vstd::utf8::*;

use crate::percent;

verus! {

/// What stands before the name of a download.
pub const ATTACHMENT: &'static str = "attachment; filename*=ISO-8859-1''";

/// The bytes that the header holds as escapes: controls, everything beyond ASCII, the space and
/// `" % ' ( ) * , - / : ; < > ? [ \ ] { }`.
pub open spec fn is_escaped(b: u8) -> bool {
    b < 0x20 || b > 0x7e || b == 0x20 || b == 0x22 || b == 0x25 || 0x27 <= b <= 0x2a || b == 0x2c
        || b == 0x2d || b == 0x2f || b == 0x3a || b == 0x3b || b == 0x3c || b == 0x3e || b == 0x3f
        || 0x5b <= b <= 0x5d || b == 0x7b || b == 0x7d
}

/// One byte of a name as it stands in the header.
pub open spec fn header_byte(b: u8) -> Seq<u8> {
    if is_escaped(b) {
        seq![
            percent::PERCENT,
            percent::hex_digit(b as int / 16),
            percent::hex_digit(b as int % 16),
        ]
    } else {
        seq![b]
    }
}

/// A name as it stands in the header.
pub open spec fn header_encoded(name: Seq<u8>) -> Seq<u8>
    decreases name.len(),
{
    if name.len() == 0 {
        Seq::empty()
    } else {
        header_byte(name[0]) + header_encoded(name.skip(1))
    }
}

/// The value of the header.
pub open spec fn disposition(name: Seq<u8>) -> Seq<u8> {
    encode_utf8(ATTACHMENT@) + header_encoded(name)
}

fn hex_digit(n: u8) -> (digit: u8)
    requires
        n < 16,
    ensures
        digit == percent::hex_digit(n as int),
{
    if n < 10 {
        n + 48
    } else {
        n + 55
    }
}

fn needs_escape(b: u8) -> (escaped: bool)
    ensures
        escaped == is_escaped(b),
{
    match b {
        0..=0x20 | 0x22 | 0x25 | 0x27..=0x2a | 0x2c | 0x2d | 0x2f | 0x3a..=0x3c | 0x3e | 0x3f => true,
        0x5b..=0x5d | 0x7b | 0x7d | 0x7f..=0xff => true,
        _ => false,
    }
}

/// Writes the value of the header that has the client save a download under the given name.
pub fn content_disposition(name: &[u8]) -> (value: Vec<u8>)
    ensures
        value@ == disposition(name@),
{
    let mut value: Vec<u8> = ATTACHMENT.as_bytes_vec();
    let mut i: usize = 0;
    assert(name@.skip(0) =~= name@);
    while i < name.len()
        invariant
            i <= name.len(),
            disposition(name@) == value@ + header_encoded(name@.skip(i as int)),
        decreases name.len() - i,
    {
        let ghost before = value@;
        let b = name[i];
        if needs_escape(b) {
            value.push(percent::PERCENT);
            value.push(hex_digit(b / 16));
            value.push(hex_digit(b % 16));
        } else {
            value.push(b);
        }
        proof {
            let rest = header_encoded(name@.skip(i + 1));
            assert(name@.skip(i as int).skip(1) =~= name@.skip(i + 1));
            assert(value@ =~= before + header_byte(b));
            assert(before + (header_byte(b) + rest) =~= (before + header_byte(b)) + rest);
        }
        i += 1;
    }
    assert(header_encoded(name@.skip(i as int)) =~= Seq::empty());
    assert(value@ + Seq::empty() =~= value@);
    value
}

/// A name is read back off the header as it was.
pub proof fn lemma_name_round_trip(name: Seq<u8>)
    ensures
        percent::percent_decoded(header_encoded(name)) == name,
    decreases name.len(),
{
    let encoded = header_encoded(name);
    if name.len() == 0 {
        assert(percent::percent_decoded(encoded) =~= name);
    } else {
        let head = header_byte(name[0]);
        let rest = header_encoded(name.skip(1));
        lemma_name_round_trip(name.skip(1));
        assert(encoded.skip(head.len() as int) =~= rest);
        assert(percent::percent_decoded(encoded) =~= seq![name[0]] + percent::percent_decoded(rest));
        assert(seq![name[0]] + name.skip(1) =~= name);
    }
}

/// The header says that the answer is an attachment, and which name it has: what follows is read as
/// the name, and holds letters, digits and ``! # $ & + . = @ ^ _ ` | ~`` beside the escapes only.
pub proof fn lemma_disposition(name: Seq<u8>)
    ensures
        ({
            let start = encode_utf8("attachment; filename*=ISO-8859-1''"@);
            let value = disposition(name);
            &&& value.len() >= start.len()
            &&& value.take(start.len() as int) == start
            &&& percent::percent_decoded(value.skip(start.len() as int)) == name
            &&& forall|i: int|
                start.len() <= i < value.len() ==> {
                    let b = #[trigger] value[i];
                    48 <= b <= 57 || 64 <= b <= 90 || 94 <= b <= 122 || b == 0x21 || b == 0x23 || b
                        == 0x24 || b == 0x25 || b == 0x26 || b == 0x2b || b == 0x2e || b == 0x3d || b
                        == 0x7c || b == 0x7e
                }
        }),
{
    let start = encode_utf8(ATTACHMENT@);
    let value = disposition(name);
    lemma_name_round_trip(name);
    lemma_header_bytes(name);
    assert(value.take(start.len() as int) =~= start);
    assert(value.skip(start.len() as int) =~= header_encoded(name));
    assert forall|i: int| start.len() <= i < value.len() implies {
        let b = #[trigger] value[i];
        48 <= b <= 57 || 64 <= b <= 90 || 94 <= b <= 122 || b == 0x21 || b == 0x23 || b == 0x24 || b
            == 0x25 || b == 0x26 || b == 0x2b || b == 0x2e || b == 0x3d || b == 0x7c || b == 0x7e
    } by {
        assert(value[i] == header_encoded(name)[i - start.len()]);
    }
}

proof fn lemma_header_bytes(name: Seq<u8>)
    ensures
        forall|i: int|
            0 <= i < header_encoded(name).len() ==> {
                let b = #[trigger] header_encoded(name)[i];
                48 <= b <= 57 || 64 <= b <= 90 || 94 <= b <= 122 || b == 0x21 || b == 0x23 || b
                    == 0x24 || b == 0x25 || b == 0x26 || b == 0x2b || b == 0x2e || b == 0x3d || b
                    == 0x7c || b == 0x7e
            },
    decreases name.len(),
{
    if name.len() > 0 {
        let head = header_byte(name[0]);
        let rest = header_encoded(name.skip(1));
        lemma_header_bytes(name.skip(1));
        assert forall|i: int| 0 <= i < header_encoded(name).len() implies {
            let b = #[trigger] header_encoded(name)[i];
            48 <= b <= 57 || 64 <= b <= 90 || 94 <= b <= 122 || b == 0x21 || b == 0x23 || b == 0x24
                || b == 0x25 || b == 0x26 || b == 0x2b || b == 0x2e || b == 0x3d || b == 0x7c || b
                == 0x7e
        } by {
            if i >= head.len() {
                assert(header_encoded(name)[i] == rest[i - head.len()]);
            }
        }
    }
}

} // verus!
