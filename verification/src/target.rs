//! The file or directory that the path of a request stands for.

use vstd::prelude::*;
use vstd::utf8::*;

use crate::text;

verus! {

/// A path without the slashes and the names `.` that it starts with.
pub open spec fn without_start(s: Seq<char>) -> Seq<char>
    decreases s.len(),
{
    if s.len() > 0 && (s[0] == '/' || s[0] == '.' && (s.len() == 1 || s[1] == '/')) {
        without_start(s.skip(1))
    } else {
        s
    }
}

/// A path without the slashes and the names `.` that it ends in.
pub open spec fn without_end(s: Seq<char>) -> Seq<char>
    decreases s.len(),
{
    if s.len() > 0 && (s.last() == '/' || s.last() == '.' && (s.len() == 1 || s[s.len() - 2]
        == '/')) {
        without_end(s.drop_last())
    } else {
        s
    }
}

/// The path below the root that an absolute path stands for: it starts and ends with a name that
/// leads somewhere, or is empty.
pub open spec fn below(path: Seq<char>) -> Seq<char> {
    without_end(without_start(path))
}

/// A path with another one, which is relative, behind it.
pub open spec fn joined(root: Seq<u8>, rest: Seq<u8>) -> Seq<u8> {
    if root.len() == 0 || root.last() == text::SLASH {
        root + rest
    } else {
        root.push(text::SLASH) + rest
    }
}

/// The path that an absolute path stands for, once it is taken to lie below `root`.
pub open spec fn target(root: Seq<u8>, path: Seq<char>) -> Seq<u8> {
    joined(root, encode_utf8(below(path)))
}

/// The names that lead along a path: what stands between its slashes. An empty name and a `.` lead
/// nowhere else.
pub open spec fn segments(path: Seq<u8>) -> Seq<Seq<u8>>
    decreases path.len(),
{
    if path.len() == 0 {
        Seq::empty()
    } else {
        proof {
            text::lemma_first_index(path, text::SLASH);
        }
        let name = text::before_first(path, text::SLASH);
        let rest = segments(text::after_first(path, text::SLASH));
        if name.len() == 0 || name == seq![text::DOT] {
            rest
        } else {
            seq![name] + rest
        }
    }
}

/// Gives the path below the root that an absolute path stands for.
pub fn relative_path(path: &str) -> (relative: &str)
    requires
        path@.len() > 0 && path@[0] == '/',
    ensures
        relative@ == below(path@),
        relative@.len() > 0 ==> relative@[0] != '/' && relative@.last() != '/',
{
    let len: usize = path.unicode_len();
    let mut start: usize = 0;
    assert(path@.skip(0) =~= path@);
    while start < len && (path.get_char(start) == '/' || path.get_char(start) == '.' && (start + 1
        == len || path.get_char(start + 1) == '/'))
        invariant
            start <= len,
            len == path@.len(),
            without_start(path@) == without_start(path@.skip(start as int)),
        decreases len - start,
    {
        assert(path@.skip(start as int).skip(1) =~= path@.skip(start + 1));
        start += 1;
    }
    let ghost rest = path@.skip(start as int);
    assert(without_start(rest) == rest);
    let mut end: usize = len;
    assert(path@.subrange(start as int, end as int) =~= rest);
    while start < end && (path.get_char(end - 1) == '/' || path.get_char(end - 1) == '.' && (end - 1
        == start || path.get_char(end - 2) == '/'))
        invariant
            start <= end <= len,
            len == path@.len(),
            without_end(rest) == without_end(path@.subrange(start as int, end as int)),
        decreases end,
    {
        assert(path@.subrange(start as int, end as int).drop_last() =~= path@.subrange(
            start as int,
            end - 1,
        ));
        end -= 1;
    }
    proof {
        lemma_below(path@);
    }
    path.substring_char(start, end)
}

/// Gives the path of the file or directory that an absolute path stands for.
pub fn target_path(root: &[u8], path: &str) -> (found: Vec<u8>)
    requires
        path@.len() > 0 && path@[0] == '/',
    ensures
        found@ == target(root@, path@),
{
    let mut found: Vec<u8> = vstd::slice::slice_to_vec(root);
    if root.len() > 0 && root[root.len() - 1] != text::SLASH {
        found.push(text::SLASH);
    }
    let mut rest: Vec<u8> = relative_path(path).as_bytes_vec();
    found.append(&mut rest);
    found
}

/// The first slash of a path stays where it is when something follows behind another slash.
proof fn lemma_first_slash(a: Seq<u8>, b: Seq<u8>)
    ensures
        text::first_index(a.push(text::SLASH) + b, text::SLASH) == text::first_index(
            a,
            text::SLASH,
        ),
{
    text::lemma_first_kept(a, text::SLASH, b);
}

/// The names along two paths with a slash between them are those along the one, and then those along
/// the other.
pub proof fn lemma_segments_concat(a: Seq<u8>, b: Seq<u8>)
    ensures
        segments(a.push(text::SLASH) + b) == segments(a) + segments(b),
    decreases a.len(),
{
    let all = a.push(text::SLASH) + b;
    text::lemma_first_index(a, text::SLASH);
    lemma_first_slash(a, b);
    let i = text::first_index(a, text::SLASH);
    assert(text::before_first(all, text::SLASH) =~= a.take(i));
    if i < a.len() {
        let rest = a.skip(i + 1);
        lemma_segments_concat(rest, b);
        assert(text::after_first(all, text::SLASH) =~= rest.push(text::SLASH) + b);
    } else {
        assert(text::after_first(all, text::SLASH) =~= b);
        assert(a.take(i) =~= a);
        assert(segments(Seq::<u8>::empty()) =~= Seq::empty());
    }
    assert(segments(all) =~= segments(a) + segments(b));
}

proof fn lemma_without_start(s: Seq<char>)
    ensures
        without_start(s).len() <= s.len(),
        without_start(s) == s.skip(s.len() - without_start(s).len()),
        forall|k: int|
            0 <= k < s.len() - without_start(s).len() ==> s[k] == '/' || s[k] == '.',
        without_start(s).len() > 0 ==> without_start(s)[0] != '/',
        without_start(s) != seq!['.'],
        without_start(s).len() > 1 ==> !(without_start(s)[0] == '.' && without_start(s)[1] == '/'),
    decreases s.len(),
{
    if s.len() > 0 && (s[0] == '/' || s[0] == '.' && (s.len() == 1 || s[1] == '/')) {
        let rest = s.skip(1);
        lemma_without_start(rest);
        assert(s.skip(s.len() - without_start(s).len()) =~= rest.skip(
            rest.len() - without_start(s).len(),
        ));
        assert forall|k: int| 0 <= k < s.len() - without_start(s).len() implies s[k] == '/' || s[k]
            == '.' by {
            if k > 0 {
                assert(rest[k - 1] == s[k]);
            }
        }
    } else {
        assert(s.skip(0) =~= s);
    }
}

proof fn lemma_without_end(s: Seq<char>)
    ensures
        without_end(s).len() <= s.len(),
        without_end(s) == s.take(without_end(s).len() as int),
        forall|k: int| without_end(s).len() <= k < s.len() ==> s[k] == '/' || s[k] == '.',
        without_end(s).len() > 0 ==> without_end(s).last() != '/',
        without_end(s) != seq!['.'],
        without_end(s).len() > 1 ==> !(without_end(s).last() == '.' && without_end(
            s,
        )[without_end(s).len() - 2] == '/'),
    decreases s.len(),
{
    if s.len() > 0 && (s.last() == '/' || s.last() == '.' && (s.len() == 1 || s[s.len() - 2]
        == '/')) {
        let rest = s.drop_last();
        lemma_without_end(rest);
        let len = without_end(s).len() as int;
        assert(s.take(len) =~= rest.take(len));
        assert forall|k: int| len <= k < s.len() implies s[k] == '/' || s[k] == '.' by {
            if k < rest.len() {
                assert(rest[k] == s[k]);
            }
        }
    } else {
        assert(s.take(s.len() as int) =~= s);
    }
}

/// A path below the root is a part of the path that stands for it. It starts and ends neither with a
/// slash nor with the name `.`, and beside it the path has slashes and dots only.
pub proof fn lemma_below(path: Seq<char>)
    ensures
        ({
            let part = below(path);
            &&& part.len() > 0 ==> part[0] != '/' && part.last() != '/'
            &&& part != seq!['.']
            &&& part.len() > 1 ==> !(part[0] == '.' && part[1] == '/')
            &&& part.len() > 1 ==> !(part.last() == '.' && part[part.len() - 2] == '/')
        }),
        exists|i: int, j: int|
            {
                &&& 0 <= i <= j <= path.len()
                &&& below(path) == #[trigger] path.subrange(i, j)
                &&& forall|k: int|
                    0 <= k < i || j <= k < path.len() ==> path[k] == '/' || path[k] == '.'
            },
{
    let rest = without_start(path);
    let part = below(path);
    lemma_without_start(path);
    lemma_without_end(rest);
    let i = path.len() - rest.len();
    let j = i + part.len();
    assert(path.subrange(i, j) =~= part);
    assert forall|k: int| 0 <= k < i || j <= k < path.len() implies path[k] == '/' || path[k]
        == '.' by {
        if j <= k {
            assert(rest[k - i] == path[k]);
        }
    }
    if part.len() > 0 {
        assert(part[0] == rest[0]);
        if part.len() > 1 {
            assert(part[1] == rest[1]);
        }
    }
}

/// A slash in front leads nowhere else.
proof fn lemma_segments_slash(s: Seq<u8>)
    ensures
        segments(seq![text::SLASH] + s) == segments(s),
{
    lemma_segments_concat(Seq::empty(), s);
    assert(Seq::<u8>::empty().push(text::SLASH) + s =~= seq![text::SLASH] + s);
    assert(segments(Seq::<u8>::empty()) + segments(s) =~= segments(s));
}

/// A `.` leads nowhere.
proof fn lemma_segments_dot()
    ensures
        segments(seq![text::DOT]) == Seq::<Seq<u8>>::empty(),
{
    let dot = seq![text::DOT];
    text::lemma_first_index(dot, text::SLASH);
    assert(text::before_first(dot, text::SLASH) =~= dot);
    assert(segments(text::after_first(dot, text::SLASH)) =~= Seq::empty());
}

proof fn lemma_segments_without_start(s: Seq<char>)
    ensures
        segments(encode_utf8(without_start(s))) == segments(encode_utf8(s)),
    decreases s.len(),
{
    if s.len() > 0 && (s[0] == '/' || s[0] == '.' && (s.len() == 1 || s[1] == '/')) {
        let rest = s.skip(1);
        let bytes = encode_utf8(rest);
        lemma_segments_without_start(rest);
        assert(s =~= seq![s[0]] + rest);
        text::lemma_encode_concat(seq![s[0]], rest);
        text::lemma_encode_ascii(s[0]);
        if s[0] == '/' {
            lemma_segments_slash(bytes);
        } else {
            lemma_segments_dot();
            if s.len() == 1 {
                assert(encode_utf8(s) =~= seq![text::DOT]);
            } else {
                let tail = rest.skip(1);
                assert(rest =~= seq!['/'] + tail);
                text::lemma_encode_concat(seq!['/'], tail);
                text::lemma_encode_ascii('/');
                lemma_segments_slash(encode_utf8(tail));
                lemma_segments_concat(seq![text::DOT], encode_utf8(tail));
                assert(encode_utf8(s) =~= seq![text::DOT].push(text::SLASH) + encode_utf8(tail));
                assert(segments(encode_utf8(s)) =~= segments(encode_utf8(tail)));
            }
        }
    }
}

proof fn lemma_segments_without_end(s: Seq<char>)
    ensures
        segments(encode_utf8(without_end(s))) == segments(encode_utf8(s)),
    decreases s.len(),
{
    if s.len() > 0 && (s.last() == '/' || s.last() == '.' && (s.len() == 1 || s[s.len() - 2]
        == '/')) {
        let rest = s.drop_last();
        let bytes = encode_utf8(rest);
        lemma_segments_without_end(rest);
        assert(s =~= rest + seq![s.last()]);
        text::lemma_encode_concat(rest, seq![s.last()]);
        text::lemma_encode_ascii(s.last());
        if s.last() == '/' {
            lemma_segments_concat(bytes, Seq::empty());
            assert(encode_utf8(s) =~= bytes.push(text::SLASH) + Seq::<u8>::empty());
            assert(segments(bytes) + segments(Seq::<u8>::empty()) =~= segments(bytes));
        } else {
            lemma_segments_dot();
            if s.len() == 1 {
                assert(encode_utf8(s) =~= seq![text::DOT]);
            } else {
                let start = rest.drop_last();
                let start_bytes = encode_utf8(start);
                assert(rest =~= start + seq!['/']);
                text::lemma_encode_concat(start, seq!['/']);
                text::lemma_encode_ascii('/');
                lemma_segments_concat(start_bytes, Seq::empty());
                lemma_segments_concat(start_bytes, seq![text::DOT]);
                assert(bytes =~= start_bytes.push(text::SLASH) + Seq::<u8>::empty());
                assert(encode_utf8(s) =~= start_bytes.push(text::SLASH) + seq![text::DOT]);
                assert(segments(encode_utf8(s)) =~= segments(bytes));
            }
        }
    }
}

/// The target of a request lies below the root: the names along its path are those along the root,
/// and then those along the path of the request, however many slashes either has. It is absolute
/// exactly where the root is.
pub proof fn lemma_target_below_root(root: Seq<u8>, path: Seq<char>)
    ensures
        segments(target(root, path)) == segments(root) + segments(encode_utf8(path)),
        segments(root) == segments(target(root, path)).take(segments(root).len() as int),
        target(root, path).len() > 0 && target(root, path)[0] == text::SLASH <==> root.len() > 0
            && root[0] == text::SLASH,
{
    let rest = encode_utf8(below(path));
    lemma_segments_without_start(path);
    lemma_segments_without_end(without_start(path));
    if root.len() == 0 {
        assert(root + rest =~= rest);
        assert(segments(root) + segments(rest) =~= segments(rest));
        if below(path).len() > 0 {
            lemma_below(path);
            lemma_first_byte(below(path));
        }
    } else if root.last() == text::SLASH {
        let start = root.drop_last();
        assert(start.push(text::SLASH) =~= root);
        lemma_segments_concat(start, rest);
        lemma_segments_concat(start, Seq::empty());
        assert(start.push(text::SLASH) + Seq::<u8>::empty() =~= root);
        assert(segments(start) + segments(Seq::empty()) =~= segments(start));
    } else {
        lemma_segments_concat(root, rest);
    }
    assert(segments(root) =~= segments(target(root, path)).take(segments(root).len() as int));
}

proof fn lemma_below_slash(path: Seq<char>)
    ensures
        below(path.push('/')) == below(path),
    decreases path.len(),
{
    let longer = path.push('/');
    if path.len() == 0 {
        assert(longer.skip(1) =~= path);
    } else if path[0] == '/' || path[0] == '.' && (path.len() == 1 || path[1] == '/') {
        assert(longer.skip(1) =~= path.skip(1).push('/'));
        lemma_below_slash(path.skip(1));
    } else {
        assert(longer.drop_last() =~= path);
    }
}

/// A path stands for the same target with a slash behind it as without.
pub proof fn lemma_slash_keeps_target(root: Seq<u8>, path: Seq<char>)
    ensures
        target(root, path.push('/')) == target(root, path),
{
    lemma_below_slash(path);
}

/// The UTF-8 bytes of a text start with a slash only where the text does.
proof fn lemma_first_byte(s: Seq<char>)
    requires
        s.len() > 0,
        s[0] != '/',
    ensures
        encode_utf8(s).len() > 0,
        encode_utf8(s)[0] != text::SLASH,
{
    let bytes = encode_utf8(s);
    encode_utf8_first_scalar(s);
    let first = bytes[0];
    assert(first == 47 ==> codepoint_width_1(first) == 47) by (bit_vector);
    if first == text::SLASH {
        assert(decode_first_scalar(bytes) == codepoint_width_1(first));
        char_u32_cast(s[0], 47);
        char_u32_cast('/', 47);
    }
}

/// A name without a slash in it leads along itself, and an empty one and `.` lead nowhere.
pub proof fn lemma_segments_of_name(name: Seq<u8>)
    requires
        !name.contains(47u8),
    ensures
        segments(name) == (if name.len() == 0 || name == seq![46u8] {
            Seq::empty()
        } else {
            seq![name]
        }),
{
    text::lemma_split_at_first(name, text::SLASH);
    assert(segments(text::after_first(name, text::SLASH)) =~= Seq::empty());
    assert(seq![name] + Seq::<Seq<u8>>::empty() =~= seq![name]);
}

/// The target of a request starts with the root, and behind the root there is at most a slash more
/// than the path below it.
pub proof fn lemma_target_starts_with_root(root: Seq<u8>, path: Seq<char>)
    ensures
        target(root, path).len() >= root.len(),
        target(root, path).take(root.len() as int) == root,
        ({
            let rest = target(root, path).skip(root.len() as int);
            ||| rest == encode_utf8(below(path)) && (root.len() == 0 || root.last() == 47)
            ||| rest == seq![47u8] + encode_utf8(below(path)) && root.len() > 0 && root.last() != 47
        }),
{
    let found = target(root, path);
    let part = encode_utf8(below(path));
    assert(found.take(root.len() as int) =~= root);
    if root.len() == 0 || root.last() == text::SLASH {
        assert(found.skip(root.len() as int) =~= part);
    } else {
        assert(found.skip(root.len() as int) =~= seq![47u8] + part);
    }
}

} // verus!
