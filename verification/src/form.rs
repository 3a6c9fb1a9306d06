//! The form that selects the files to download.

use url::form_urlencoded;
use vstd::prelude::*;
use vstd::utf8::*;

use crate::percent;
use crate::text;

verus! {

/// The byte `&`, which ends a field of a form.
pub const AMPERSAND: u8 = 38;

/// The byte `=`, which ends the name of a field.
pub const EQUALS: u8 = 61;

/// The byte `+`, which stands for a space in a form.
pub const PLUS: u8 = 43;

/// The bytes with a space for each `+`.
pub open spec fn spaced(s: Seq<u8>) -> Seq<u8> {
    s.map_values(
        |b: u8|
            if b == PLUS {
                0x20u8
            } else {
                b
            },
    )
}

/// The text of a name or a value in a form: `+` stands for a space, escapes for bytes.
pub open spec fn form_text(s: Seq<u8>) -> Seq<char> {
    text::lossy_text(percent::percent_decoded(spaced(s)))
}

/// The names and values of the fields of a form, in order. A field without a `=` has an empty
/// value, and an empty field is none.
pub open spec fn form_fields(s: Seq<u8>) -> Seq<(Seq<char>, Seq<char>)>
    decreases s.len(),
{
    if s.len() == 0 {
        Seq::empty()
    } else {
        proof {
            text::lemma_first_index(s, AMPERSAND);
        }
        let field = text::before_first(s, AMPERSAND);
        let rest = form_fields(text::after_first(s, AMPERSAND));
        if field.len() == 0 {
            rest
        } else {
            seq![
                (form_text(text::before_first(field, EQUALS)), form_text(text::after_first(field, EQUALS))),
            ] + rest
        }
    }
}

/// The views of the fields of a form.
pub open spec fn field_views(fields: Seq<(String, String)>) -> Seq<(Seq<char>, Seq<char>)> {
    fields.map_values(|f: (String, String)| (f.0@, f.1@))
}

/// Why a form is not served.
#[derive(Debug, Clone, Copy, PartialEq, Eq, Structural)]
pub enum FormError {
    /// A field has another name than `s`.
    UnknownField,
    /// The value of a field does not decode to UTF-8.
    NotUtf8,
}

/// The files that the fields of a form select, or what is wrong with the first field that
/// selects none.
pub open spec fn selection(fields: Seq<(Seq<char>, Seq<char>)>) -> Result<
    Seq<Seq<char>>,
    FormError,
>
    decreases fields.len(),
{
    if fields.len() == 0 {
        Ok(Seq::empty())
    } else if fields[0].0 != "s"@ {
        Err(FormError::UnknownField)
    } else {
        match percent::decoded_text(fields[0].1) {
            None => Err(FormError::NotUtf8),
            Some(file) => match selection(fields.skip(1)) {
                Ok(files) => Ok(seq![file] + files),
                Err(e) => Err(e),
            },
        }
    }
}

/// The view of the outcome of a selection.
pub open spec fn selection_view(files: Result<Vec<String>, FormError>) -> Result<
    Seq<Seq<char>>,
    FormError,
> {
    match files {
        Ok(files) => Ok(text::text_views(files@)),
        Err(e) => Err(e),
    }
}

/// Calls `url::form_urlencoded::parse` and collects the pairs. The claim is that the body is split
/// at each `&` into fields and each non-empty field at its first `=` into a name and a value,
/// in which `+` stands for a space, escapes for bytes, and the bytes for text as
/// `String::from_utf8_lossy` reads them.
#[verifier::external_body]
fn parse_form(body: &[u8]) -> (fields: Vec<(String, String)>)
    ensures
        field_views(fields@) == form_fields(body@),
{
    form_urlencoded::parse(body).into_owned().collect()
}

/// Reads the selected files off the fields of a form.
pub fn select_files(fields: &Vec<(String, String)>) -> (files: Result<Vec<String>, FormError>)
    ensures
        selection_view(files) == selection(field_views(fields@)),
{
    let ghost views = field_views(fields@);
    let mut files: Vec<String> = Vec::new();
    let mut i: usize = 0;
    assert(views.skip(0) =~= views);
    while i < fields.len()
        invariant
            i <= fields.len(),
            views == field_views(fields@),
            match selection(views.skip(i as int)) {
                Ok(rest) => selection(views) == Ok::<_, FormError>(
                    text::text_views(files@) + rest,
                ),
                Err(e) => selection(views) == Err::<Seq<Seq<char>>, _>(e),
            },
        decreases fields.len() - i,
    {
        let ghost before = text::text_views(files@);
        assert(views.skip(i as int)[0] == (fields@[i as int].0@, fields@[i as int].1@));
        assert(views.skip(i as int).skip(1) =~= views.skip(i + 1));
        if fields[i].0 != "s".to_owned() {
            return Err(FormError::UnknownField);
        }
        match percent::percent_decode(fields[i].1.as_str()) {
            None => {
                return Err(FormError::NotUtf8);
            },
            Some(file) => {
                files.push(file);
                assert(text::text_views(files@) =~= before.push(file@));
                assert(forall|rest: Seq<Seq<char>>|
                    #![trigger before.push(file@) + rest]
                    before.push(file@) + rest =~= before + (seq![file@] + rest));
            },
        }
        i += 1;
    }
    assert(views.skip(i as int) =~= Seq::empty());
    assert(text::text_views(files@) + Seq::empty() =~= text::text_views(files@));
    Ok(files)
}

/// Reads the selected files off the body of a form submission.
pub fn selected_files(body: &[u8]) -> (files: Result<Vec<String>, FormError>)
    ensures
        selection_view(files) == selection(form_fields(body@)),
{
    let fields = parse_form(body);
    select_files(&fields)
}

/// Whether a byte stands for itself in a form.
pub open spec fn is_form_plain(b: u8) -> bool {
    48 <= b <= 57 || 65 <= b <= 90 || 97 <= b <= 122 || b == 0x2a || b == 0x2d || b == 0x2e || b
        == 0x5f
}

/// One byte as clients write it in a form.
pub open spec fn form_byte(b: u8) -> Seq<u8> {
    if is_form_plain(b) {
        seq![b]
    } else if b == 0x20 {
        seq![PLUS]
    } else {
        seq![
            percent::PERCENT,
            percent::hex_digit(b as int / 16),
            percent::hex_digit(b as int % 16),
        ]
    }
}

/// Bytes as clients write them in a form.
pub open spec fn form_encoded(s: Seq<u8>) -> Seq<u8>
    decreases s.len(),
{
    if s.len() == 0 {
        Seq::empty()
    } else {
        form_byte(s[0]) + form_encoded(s.skip(1))
    }
}

/// The field by which clients submit the value of a ticked box.
pub open spec fn form_field(value: Seq<char>) -> Seq<u8> {
    encode_utf8("s"@) + seq![EQUALS] + form_encoded(encode_utf8(value))
}

/// The body by which clients submit the values of the ticked boxes.
pub open spec fn form_body(values: Seq<Seq<char>>) -> Seq<u8>
    decreases values.len(),
{
    if values.len() == 0 {
        Seq::empty()
    } else if values.len() == 1 {
        form_field(values[0])
    } else {
        form_field(values[0]) + seq![AMPERSAND] + form_body(values.skip(1))
    }
}

proof fn lemma_form_encoded(s: Seq<u8>)
    ensures
        percent::percent_decoded(spaced(form_encoded(s))) == s,
        forall|i: int|
            0 <= i < form_encoded(s).len() ==> #[trigger] form_encoded(s)[i] != AMPERSAND
                && form_encoded(s)[i] != EQUALS,
    decreases s.len(),
{
    if s.len() == 0 {
        assert(percent::percent_decoded(spaced(form_encoded(s))) =~= s);
    } else {
        let head = form_byte(s[0]);
        let tail = form_encoded(s.skip(1));
        let e = spaced(form_encoded(s));
        lemma_form_encoded(s.skip(1));
        assert(e =~= spaced(head) + spaced(tail));
        assert(e.skip(head.len() as int) =~= spaced(tail));
        assert(percent::percent_decoded(e) =~= seq![s[0]] + percent::percent_decoded(spaced(tail)));
        assert(seq![s[0]] + s.skip(1) =~= s);
        assert forall|i: int| 0 <= i < form_encoded(s).len() implies #[trigger] form_encoded(s)[i]
            != AMPERSAND && form_encoded(s)[i] != EQUALS by {
            if i >= head.len() {
                assert(form_encoded(s)[i] == tail[i - head.len()]);
            }
        }
    }
}

/// The first index is where `b` is first met.
proof fn lemma_first_index_is(s: Seq<u8>, b: u8, i: int)
    requires
        0 <= i <= s.len(),
        forall|k: int| 0 <= k < i ==> s[k] != b,
        i < s.len() ==> s[i] == b,
    ensures
        text::first_index(s, b) == i,
{
    text::lemma_first_index(s, b);
}

proof fn lemma_form_field(value: Seq<char>)
    ensures
        form_field(value).len() > 0,
        forall|i: int|
            0 <= i < form_field(value).len() ==> #[trigger] form_field(value)[i] != AMPERSAND,
        form_text(text::before_first(form_field(value), EQUALS)) == "s"@,
        form_text(text::after_first(form_field(value), EQUALS)) == value,
{
    let field = form_field(value);
    let name = encode_utf8("s"@);
    let encoded = form_encoded(encode_utf8(value));
    reveal_strlit("s");
    assert("s"@ =~= seq!['s']);
    text::lemma_encode_ascii('s');
    lemma_form_encoded(encode_utf8(value));
    assert(name =~= seq![115u8]);
    assert forall|i: int| 0 <= i < field.len() implies #[trigger] field[i] != AMPERSAND by {
        if i >= 2 {
            assert(field[i] == encoded[i - 2]);
        }
    }
    lemma_first_index_is(field, EQUALS, 1);
    assert(text::before_first(field, EQUALS) =~= name);
    assert(text::after_first(field, EQUALS) =~= encoded);
    assert(spaced(name) =~= name);
    assert(percent::percent_decoded(name) =~= name) by {
        reveal_with_fuel(percent::percent_decoded, 2);
        assert(name.skip(1) =~= Seq::empty());
    }
    encode_utf8_valid_utf8("s"@);
    encode_utf8_decode_utf8("s"@);
    encode_utf8_valid_utf8(value);
    encode_utf8_decode_utf8(value);
}

/// A form is read back as the fields that clients make it of.
pub proof fn lemma_form_round_trip(values: Seq<Seq<char>>)
    ensures
        form_fields(form_body(values)) == values.map_values(|value: Seq<char>| ("s"@, value)),
    decreases values.len(),
{
    let body = form_body(values);
    let fields = values.map_values(|value: Seq<char>| ("s"@, value));
    if values.len() == 0 {
        assert(form_fields(body) =~= fields);
    } else {
        let field = form_field(values[0]);
        let rest = values.skip(1);
        lemma_form_field(values[0]);
        lemma_form_round_trip(rest);
        lemma_first_index_is(body, AMPERSAND, field.len() as int);
        assert(text::before_first(body, AMPERSAND) =~= field);
        assert(text::after_first(body, AMPERSAND) =~= form_body(rest));
        assert(fields =~= seq![("s"@, values[0])] + rest.map_values(
            |value: Seq<char>| ("s"@, value),
        ));
    }
}

/// The fields of two forms with a `&` between them are those of the one, and then those of the
/// other.
pub proof fn lemma_fields_concat(a: Seq<u8>, b: Seq<u8>)
    ensures
        form_fields(a.push(38) + b) == form_fields(a) + form_fields(b),
    decreases a.len(),
{
    let all = a.push(38) + b;
    text::lemma_first_index(a, AMPERSAND);
    text::lemma_first_kept(a, AMPERSAND, b);
    let i = text::first_index(a, AMPERSAND);
    assert(text::before_first(all, AMPERSAND) =~= a.take(i));
    if i < a.len() {
        let rest = a.skip(i + 1);
        lemma_fields_concat(rest, b);
        assert(text::after_first(all, AMPERSAND) =~= rest.push(38) + b);
    } else {
        assert(text::after_first(all, AMPERSAND) =~= b);
        assert(a.take(i) =~= a);
        assert(form_fields(Seq::<u8>::empty()) =~= Seq::empty());
    }
    assert(form_fields(all) =~= form_fields(a) + form_fields(b));
}

/// A field has the name that stands before its first `=` and the value that stands behind it. One
/// without a `=` has an empty value, and an empty one is none.
pub proof fn lemma_one_field(name: Seq<u8>, value: Seq<u8>)
    requires
        !name.contains(38u8) && !value.contains(38u8),
        !name.contains(61u8),
    ensures
        form_fields(name.push(61) + value) == seq![(form_text(name), form_text(value))],
        name.len() > 0 ==> form_fields(name) == seq![(form_text(name), Seq::<char>::empty())],
        name.len() == 0 ==> form_fields(name).len() == 0,
{
    let field = name.push(61) + value;
    let none = Seq::<(Seq<char>, Seq<char>)>::empty();
    assert(form_fields(Seq::<u8>::empty()) =~= none);
    assert(!field.contains(38u8)) by {
        assert forall|i: int| 0 <= i < field.len() implies field[i] != 38 by {
            if i < name.len() {
                assert(field[i] == name[i]);
            } else if i > name.len() {
                assert(field[i] == value[i - name.len() - 1]);
            }
        }
    }
    text::lemma_split_at_first(field, AMPERSAND);
    lemma_first_index_is(field, EQUALS, name.len() as int);
    assert(text::before_first(field, EQUALS) =~= name);
    assert(text::after_first(field, EQUALS) =~= value);
    assert(text::after_first(field, AMPERSAND) =~= Seq::empty());
    assert(form_fields(field) =~= seq![(form_text(name), form_text(value))]);
    if name.len() > 0 {
        text::lemma_split_at_first(name, AMPERSAND);
        text::lemma_split_at_first(name, EQUALS);
        assert(text::after_first(name, AMPERSAND) =~= Seq::empty());
        assert(text::after_first(name, EQUALS) =~= Seq::empty());
        lemma_form_text(Seq::empty(), Seq::empty(), Seq::empty());
        assert(form_fields(name) =~= seq![(form_text(name), Seq::<char>::empty())]);
    }
}

/// A name or a value is the text that its bytes are read as, once each `+` is a space.
pub proof fn lemma_form_text(s: Seq<u8>, with_spaces: Seq<u8>, text: Seq<char>)
    requires
        with_spaces.len() == s.len(),
        forall|i: int|
            0 <= i < s.len() ==> #[trigger] with_spaces[i] == (if s[i] == 43 {
                32u8
            } else {
                s[i]
            }),
        percent::percent_decoded(with_spaces) == encode_utf8(text),
    ensures
        form_text(s) == text,
{
    assert(spaced(s) =~= with_spaces);
    text::lemma_text_of_bytes(percent::percent_decoded(with_spaces), text);
}

/// Every field of a form selects a file where all are named `s` and decode, in their order. Else the
/// first field that does not is told: by its name, where that is another, and else by its value.
pub proof fn lemma_selection(fields: Seq<(Seq<char>, Seq<char>)>)
    ensures
        match selection(fields) {
            Ok(files) => {
                &&& files.len() == fields.len()
                &&& forall|i: int|
                    0 <= i < fields.len() ==> (#[trigger] fields[i]).0 == seq!['s']
                        && percent::decoded_text(fields[i].1) == Some(files[i])
            },
            Err(e) => exists|i: int|
                {
                    &&& 0 <= i < fields.len()
                    &&& forall|k: int|
                        0 <= k < i ==> (#[trigger] fields[k]).0 == seq!['s']
                            && percent::decoded_text(fields[k].1) is Some
                    &&& e == FormError::UnknownField ==> (#[trigger] fields[i]).0 != seq!['s']
                    &&& e == FormError::NotUtf8 ==> fields[i].0 == seq!['s']
                        && percent::decoded_text(fields[i].1) is None
                },
        },
    decreases fields.len(),
{
    reveal_strlit("s");
    assert("s"@ =~= seq!['s']);
    if fields.len() > 0 && fields[0].0 == "s"@ && percent::decoded_text(fields[0].1) is Some {
        let rest = fields.skip(1);
        lemma_selection(rest);
        match selection(rest) {
            Ok(files) => {
                assert forall|i: int| 0 <= i < fields.len() implies (#[trigger] fields[i]).0
                    == seq!['s'] && percent::decoded_text(fields[i].1) == Some(
                    selection(fields)->Ok_0[i],
                ) by {
                    if i > 0 {
                        assert(rest[i - 1] == fields[i]);
                    }
                }
            },
            Err(e) => {
                let i = choose|i: int|
                    {
                        &&& 0 <= i < rest.len()
                        &&& forall|k: int|
                            0 <= k < i ==> (#[trigger] rest[k]).0 == seq!['s']
                                && percent::decoded_text(rest[k].1) is Some
                        &&& e == FormError::UnknownField ==> (#[trigger] rest[i]).0 != seq!['s']
                        &&& e == FormError::NotUtf8 ==> rest[i].0 == seq!['s']
                            && percent::decoded_text(rest[i].1) is None
                    };
                assert(fields[i + 1] == rest[i]);
                assert forall|k: int| 0 <= k < i + 1 implies (#[trigger] fields[k]).0 == seq!['s']
                    && percent::decoded_text(fields[k].1) is Some by {
                    if k > 0 {
                        assert(rest[k - 1] == fields[k]);
                    }
                }
            },
        }
    } else if fields.len() > 0 {
        assert(fields[0] == fields[0]);
    }
}

/// The views of fields and of files are those of each of them, one by one.
pub proof fn lemma_form_views(
    fields: Seq<(String, String)>,
    files: Result<Vec<String>, FormError>,
)
    ensures
        field_views(fields).len() == fields.len(),
        forall|i: int|
            0 <= i < fields.len() ==> #[trigger] field_views(fields)[i] == (
                fields[i].0@,
                fields[i].1@,
            ),
        match files {
            Ok(files) => {
                &&& selection_view(Ok(files)) is Ok
                &&& selection_view(Ok(files))->Ok_0.len() == files@.len()
                &&& forall|i: int|
                    0 <= i < files@.len() ==> #[trigger] selection_view(Ok(files))->Ok_0[i]
                        == files@[i]@
            },
            Err(e) => selection_view(Err(e)) == Err::<Seq<Seq<char>>, _>(e),
        },
{
}

} // verus!
