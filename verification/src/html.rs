//! Text inside markup.

use horrorshow::Template;
use vstd::prelude::*;

verus! {

/// One character as it stands in markup: the four characters that markup gives a meaning are
/// replaced by their entities.
pub open spec fn escaped_char(c: char) -> Seq<char> {
    if c == '&' {
        "&amp;"@
    } else if c == '"' {
        "&quot;"@
    } else if c == '<' {
        "&lt;"@
    } else if c == '>' {
        "&gt;"@
    } else {
        seq![c]
    }
}

/// A text as it stands in markup.
pub open spec fn escaped(text: Seq<char>) -> Seq<char>
    decreases text.len(),
{
    if text.len() == 0 {
        Seq::empty()
    } else {
        escaped_char(text[0]) + escaped(text.skip(1))
    }
}

/// Calls `horrorshow::Template::into_string` on a text. The claim is that rendering a text never
/// fails, and that it replaces `&`, `"`, `<` and `>` by their entities and nothing else.
#[verifier::external_body]
pub(crate) fn escape(text: &str) -> (markup: String)
    ensures
        markup@ == escaped(text@),
{
    text.into_string().unwrap()
}

proof fn lemma_escaped_char(c: char)
    ensures
        escaped_char(c).len() > 0,
        escaped_char(c)[0] == (if c == '"' || c == '<' || c == '>' {
            '&'
        } else {
            c
        }),
        forall|i: int|
            0 <= i < escaped_char(c).len() ==> #[trigger] escaped_char(c)[i] != '<'
                && escaped_char(c)[i] != '>' && escaped_char(c)[i] != '"',
{
    reveal_strlit("&amp;");
    reveal_strlit("&quot;");
    reveal_strlit("&lt;");
    reveal_strlit("&gt;");
}

/// Escaped text opens no tag, closes none, and ends no quoted attribute.
pub proof fn lemma_escaped_is_inert(text: Seq<char>)
    ensures
        forall|i: int|
            0 <= i < escaped(text).len() ==> #[trigger] escaped(text)[i] != '<' && escaped(text)[i]
                != '>' && escaped(text)[i] != '"',
    decreases text.len(),
{
    if text.len() > 0 {
        lemma_escaped_char(text[0]);
        lemma_escaped_is_inert(text.skip(1));
        let head = escaped_char(text[0]);
        let tail = escaped(text.skip(1));
        assert forall|i: int| 0 <= i < escaped(text).len() implies #[trigger] escaped(text)[i]
            != '<' && escaped(text)[i] != '>' && escaped(text)[i] != '"' by {
            if i < head.len() {
                assert(escaped(text)[i] == head[i]);
            } else {
                assert(escaped(text)[i] == tail[i - head.len()]);
            }
        }
    }
}

/// Two texts that look alike in markup are the same text.
pub proof fn lemma_escaped_is_injective(a: Seq<char>, b: Seq<char>)
    requires
        escaped(a) == escaped(b),
    ensures
        a == b,
    decreases a.len(),
{
    if a.len() > 0 {
        lemma_escaped_char(a[0]);
    }
    if b.len() > 0 {
        lemma_escaped_char(b[0]);
    }
    if a.len() > 0 && b.len() > 0 {
        let ha = escaped_char(a[0]);
        let hb = escaped_char(b[0]);
        let e = escaped(a);
        reveal_strlit("&amp;");
        reveal_strlit("&quot;");
        reveal_strlit("&lt;");
        reveal_strlit("&gt;");
        assert(e[0] == ha[0] && e[0] == hb[0]);
        if ha.len() > 1 && hb.len() > 1 {
            assert(e[1] == ha[1] && e[1] == hb[1]);
        }
        assert(a[0] == b[0]);
        assert(escaped(a.skip(1)) =~= e.skip(ha.len() as int));
        assert(escaped(b.skip(1)) =~= e.skip(hb.len() as int));
        lemma_escaped_is_injective(a.skip(1), b.skip(1));
        assert(seq![a[0]] + a.skip(1) =~= a);
        assert(seq![b[0]] + b.skip(1) =~= b);
    } else {
        assert(a.len() > 0 ==> escaped(a).len() >= escaped_char(a[0]).len());
        assert(b.len() > 0 ==> escaped(b).len() >= escaped_char(b[0]).len());
        assert(a =~= b);
    }
}

/// Two texts in a row stand in markup as the one followed by the other.
pub proof fn lemma_escaped_concat(a: Seq<char>, b: Seq<char>)
    ensures
        escaped(a + b) == escaped(a) + escaped(b),
    decreases a.len(),
{
    if a.len() == 0 {
        assert(a + b =~= b);
        assert(escaped(a) + escaped(b) =~= escaped(b));
    } else {
        lemma_escaped_concat(a.skip(1), b);
        assert((a + b).skip(1) =~= a.skip(1) + b);
        assert(escaped(a + b) =~= escaped(a) + escaped(b));
    }
}

/// A character stands in markup as it is, unless markup gives it a meaning: then it stands there as
/// its entity.
pub proof fn lemma_escaped_one(c: char)
    ensures
        escaped(seq![c]) == (if c == '<' {
            seq!['&', 'l', 't', ';']
        } else if c == '>' {
            seq!['&', 'g', 't', ';']
        } else if c == '&' {
            seq!['&', 'a', 'm', 'p', ';']
        } else if c == '"' {
            seq!['&', 'q', 'u', 'o', 't', ';']
        } else {
            seq![c]
        }),
        escaped(Seq::empty()) == Seq::<char>::empty(),
{
    reveal_strlit("&amp;");
    reveal_strlit("&quot;");
    reveal_strlit("&lt;");
    reveal_strlit("&gt;");
    reveal_with_fuel(escaped, 2);
    assert(seq![c].skip(1) =~= Seq::empty());
    assert(escaped(seq![c]) =~= escaped_char(c));
}

} // verus!
