//! Operations on text that the rest of the library is written with.
//!
//! A string is seen as its sequence of characters.

use vstd::prelude::*;

verus! {

/// The characters that Unicode gives the `White_Space` property.
pub open spec fn white_space(c: char) -> bool {
    ||| '\u{9}' <= c <= '\u{d}'
    ||| c == ' '
    ||| c == '\u{85}'
    ||| c == '\u{a0}'
    ||| c == '\u{1680}'
    ||| '\u{2000}' <= c <= '\u{200a}'
    ||| c == '\u{2028}'
    ||| c == '\u{2029}'
    ||| c == '\u{202f}'
    ||| c == '\u{205f}'
    ||| c == '\u{3000}'
}

/// `s` without its leading white space.
pub open spec fn without_leading_space(s: Seq<char>) -> Seq<char>
    decreases s.len(),
{
    if s.len() > 0 && white_space(s.first()) {
        without_leading_space(s.drop_first())
    } else {
        s
    }
}

/// `s` without its trailing white space.
pub open spec fn without_trailing_space(s: Seq<char>) -> Seq<char>
    decreases s.len(),
{
    if s.len() > 0 && white_space(s.last()) {
        without_trailing_space(s.drop_last())
    } else {
        s
    }
}

/// `s` without white space at either end.
pub open spec fn trimmed(s: Seq<char>) -> Seq<char> {
    without_trailing_space(without_leading_space(s))
}

/// Whether a character has the `White_Space` property.
pub fn is_white_space(c: char) -> (r: bool)
    ensures
        r == white_space(c),
{
    ('\u{9}' <= c && c <= '\u{d}') || c == ' ' || c == '\u{85}' || c == '\u{a0}' || c == '\u{1680}'
        || ('\u{2000}' <= c && c <= '\u{200a}') || c == '\u{2028}' || c == '\u{2029}' || c
        == '\u{202f}' || c == '\u{205f}' || c == '\u{3000}'
}

/// The characters of a string, in order.
pub fn characters(s: &str) -> (r: Vec<char>)
    ensures
        r@ == s@,
{
    let mut r: Vec<char> = Vec::new();
    for c in it: s.chars()
        invariant
            r@ == it.seq().take(it.index() as int),
            it.seq() == s@,
    {
        r.push(c);
    }
    r
}

/// The string without white space at either end.
pub fn trim(s: &str) -> (r: &str)
    ensures
        r@ == trimmed(s@),
{
    let chars = characters(s);
    let mut from: usize = 0;
    assert(s@.skip(0) =~= s@);
    while from < chars.len() && is_white_space(chars[from])
        invariant
            from <= chars.len(),
            chars@ == s@,
            without_leading_space(s@.skip(from as int)) == without_leading_space(s@),
        decreases chars.len() - from,
    {
        assert(s@.skip(from as int).drop_first() =~= s@.skip(from + 1));
        from += 1;
    }
    let mut to: usize = chars.len();
    assert(s@.subrange(from as int, to as int) =~= s@.skip(from as int));
    while to > from && is_white_space(chars[to - 1])
        invariant
            from <= to <= chars.len(),
            chars@ == s@,
            without_trailing_space(s@.subrange(from as int, to as int)) == trimmed(s@),
        decreases to,
    {
        assert(s@.subrange(from as int, to as int).drop_last() =~= s@.subrange(
            from as int,
            to - 1,
        ));
        to -= 1;
    }
    s.substring_char(from, to)
}

/// Whether two strings hold the same characters.
pub fn same_text(a: &str, b: &str) -> (r: bool)
    ensures
        r == (a@ == b@),
{
    a.to_owned() == b.to_owned()
}

/// What is left of `s` when it begins with `prefix`.
pub open spec fn without_prefix(s: Seq<char>, prefix: Seq<char>) -> Option<Seq<char>> {
    if prefix.is_prefix_of(s) {
        Some(s.skip(prefix.len() as int))
    } else {
        None
    }
}

/// The view of an optional string.
pub open spec fn opt_text(s: Option<&str>) -> Option<Seq<char>> {
    match s {
        Some(t) => Some(t@),
        None => None,
    }
}

/// The view of an optional owned string.
pub open spec fn opt_string(s: Option<String>) -> Option<Seq<char>> {
    match s {
        Some(t) => Some(t@),
        None => None,
    }
}

/// The views of a list of strings.
pub open spec fn texts(s: Seq<String>) -> Seq<Seq<char>> {
    s.map_values(|t: String| t@)
}

/// What is left of a string after `prefix`, if it begins with it.
pub fn strip_prefix<'a>(s: &'a str, prefix: &str) -> (r: Option<&'a str>)
    ensures
        opt_text(r) == without_prefix(s@, prefix@),
{
    let n: usize = prefix.unicode_len();
    let len: usize = s.unicode_len();
    if n > len {
        return None;
    }
    let head = s.substring_char(0, n);
    if same_text(head, prefix) {
        assert(prefix@.is_prefix_of(s@));
        assert(s@.subrange(n as int, len as int) =~= s@.skip(n as int));
        Some(s.substring_char(n, len))
    } else {
        assert(prefix@.is_prefix_of(s@) ==> head@ =~= prefix@);
        None
    }
}

/// The pieces of `s` between the occurrences of `sep`: one more than there are occurrences.
pub open spec fn split_on(s: Seq<char>, sep: char) -> Seq<Seq<char>>
    decreases s.len(),
{
    if s.len() == 0 {
        seq![Seq::<char>::empty()]
    } else {
        let before = split_on(s.drop_last(), sep);
        if s.last() == sep {
            before.push(Seq::<char>::empty())
        } else {
            before.drop_last().push(before.last().push(s.last()))
        }
    }
}

/// The pieces of a string between the occurrences of a separator.
pub fn split(s: &str, sep: char) -> (r: Vec<String>)
    ensures
        texts(r@) == split_on(s@, sep),
{
    let chars = characters(s);
    let mut pieces: Vec<String> = Vec::new();
    let mut start: usize = 0;
    let mut i: usize = 0;
    assert(s@.take(0) =~= Seq::<char>::empty());
    assert(s@.subrange(0, 0) =~= Seq::<char>::empty());
    assert(texts(pieces@).push(s@.subrange(0, 0)) =~= split_on(s@.take(0), sep));
    while i < chars.len()
        invariant
            start <= i <= chars.len(),
            chars@ == s@,
            texts(pieces@).push(s@.subrange(start as int, i as int)) == split_on(
                s@.take(i as int),
                sep,
            ),
        decreases chars.len() - i,
    {
        assert(s@.take(i + 1).drop_last() =~= s@.take(i as int));
        let ghost before = split_on(s@.take(i as int), sep);
        let ghost piece = s@.subrange(start as int, i as int);
        assert(before.last() == piece);
        if chars[i] == sep {
            let ghost done = pieces@;
            pieces.push(s.substring_char(start, i).to_owned());
            assert(texts(pieces@) =~= texts(done).push(piece));
            start = i + 1;
            assert(s@.subrange(start as int, i + 1) =~= Seq::<char>::empty());
        } else {
            assert(s@.subrange(start as int, i + 1) =~= piece.push(s@[i as int]));
            assert(before.drop_last() =~= texts(pieces@));
        }
        i += 1;
    }
    assert(s@.take(i as int) =~= s@);
    let ghost done = pieces@;
    pieces.push(s.substring_char(start, i).to_owned());
    assert(texts(pieces@) =~= texts(done).push(s@.subrange(start as int, i as int)));
    pieces
}

/// The first piece that is not empty.
pub open spec fn first_filled(pieces: Seq<Seq<char>>) -> Option<Seq<char>>
    decreases pieces.len(),
{
    if pieces.len() == 0 {
        None
    } else if pieces.first().len() > 0 {
        Some(pieces.first())
    } else {
        first_filled(pieces.drop_first())
    }
}

/// The first segment of a path that is not empty.
pub open spec fn first_segment_of(path: Seq<char>) -> Option<Seq<char>> {
    first_filled(split_on(path, '/'))
}

/// The first segment of a path that is not empty, if there is one.
pub fn first_segment(path: &str) -> (r: Option<String>)
    ensures
        opt_string(r) == first_segment_of(path@),
{
    let pieces = split(path, '/');
    let mut i: usize = 0;
    assert(texts(pieces@).skip(0) =~= texts(pieces@));
    while i < pieces.len()
        invariant
            i <= pieces.len(),
            first_filled(texts(pieces@).skip(i as int)) == first_segment_of(path@),
        decreases pieces.len() - i,
    {
        assert(texts(pieces@).skip(i as int).first() == pieces@[i as int]@);
        if !pieces[i].as_str().is_empty() {
            return Some(pieces[i].clone());
        }
        assert(texts(pieces@).skip(i as int).drop_first() =~= texts(pieces@).skip(i + 1));
        i += 1;
    }
    None
}

/// Whether every character is white space.
pub open spec fn all_white(s: Seq<char>) -> bool {
    forall|i: int| 0 <= i < s.len() ==> white_space(#[trigger] s[i])
}

/// White space is what Unicode says it is, by number.
pub proof fn law_white_space_by_number(c: char)
    ensures
        white_space(c) <==> {
            let n = c as u32;
            ||| 9 <= n <= 13
            ||| n == 32
            ||| n == 133
            ||| n == 160
            ||| n == 5760
            ||| 8192 <= n <= 8202
            ||| n == 8232
            ||| n == 8233
            ||| n == 8239
            ||| n == 8287
            ||| n == 12288
        },
{
}

proof fn lemma_leading(a: Seq<char>, rest: Seq<char>)
    requires
        all_white(a),
        rest.len() > 0 ==> !white_space(rest[0]),
    ensures
        without_leading_space(a + rest) == rest,
    decreases a.len(),
{
    if a.len() > 0 {
        assert((a + rest).first() == a[0]);
        assert((a + rest).drop_first() =~= a.drop_first() + rest);
        lemma_leading(a.drop_first(), rest);
    } else {
        assert(a + rest =~= rest);
    }
}

proof fn lemma_trailing(rest: Seq<char>, b: Seq<char>)
    requires
        all_white(b),
        rest.len() > 0 ==> !white_space(rest.last()),
    ensures
        without_trailing_space(rest + b) == rest,
    decreases b.len(),
{
    if b.len() > 0 {
        assert((rest + b).last() == b[b.len() - 1]);
        assert((rest + b).drop_last() =~= rest + b.drop_last());
        lemma_trailing(rest, b.drop_last());
    } else {
        assert(rest + b =~= rest);
    }
}

/// Trimming takes away white space at the ends, all of it, and nothing else.
pub proof fn law_trimming_takes_what_is_white_at_the_ends(a: Seq<char>, t: Seq<char>, b: Seq<char>)
    requires
        all_white(a),
        all_white(b),
        t.len() > 0 ==> !white_space(t[0]) && !white_space(t[t.len() - 1]),
    ensures
        trimmed(a + t + b) == t,
{
    if t.len() > 0 {
        assert(a + t + b =~= a + (t + b));
        lemma_leading(a, t + b);
        lemma_trailing(t, b);
    } else {
        assert(a + t + b =~= (a + b) + t);
        assert forall|i: int| 0 <= i < (a + b).len() implies white_space(#[trigger] (a + b)[i]) by {
            if i < a.len() {
                assert(white_space(a[i]));
            } else {
                assert(white_space(b[i - a.len()]));
            }
        }
        lemma_leading(a + b, t);
        assert(t =~= Seq::empty());
    }
}

/// What is left of a string behind a prefix is what stands behind it, and only a string that begins with
/// the prefix has any such rest.
pub proof fn law_a_string_is_its_prefix_and_the_rest(
    s: Seq<char>,
    prefix: Seq<char>,
    rest: Seq<char>,
)
    ensures
        without_prefix(s, prefix) == Some(rest) <==> s == prefix + rest,
{
    if s == prefix + rest {
        assert(prefix.is_prefix_of(s));
        assert(s.skip(prefix.len() as int) =~= rest);
    }
    if without_prefix(s, prefix) == Some(rest) {
        assert(s =~= prefix + rest);
    }
}

/// The pieces with the separator put back between them.
pub open spec fn joined(pieces: Seq<Seq<char>>, sep: char) -> Seq<char>
    decreases pieces.len(),
{
    if pieces.len() == 0 {
        Seq::empty()
    } else if pieces.len() == 1 {
        pieces[0]
    } else {
        joined(pieces.drop_last(), sep).push(sep) + pieces.last()
    }
}

/// The pieces of a string give the string back when they are joined, and none of them holds the
/// separator.
pub proof fn law_pieces_give_the_string_back(s: Seq<char>, sep: char)
    ensures
        split_on(s, sep).len() > 0,
        joined(split_on(s, sep), sep) == s,
        forall|i: int|
            0 <= i < split_on(s, sep).len() ==> !(#[trigger] split_on(s, sep)[i]).contains(sep),
    decreases s.len(),
{
    let pieces = split_on(s, sep);
    if s.len() == 0 {
        assert(pieces.len() == 1);
        assert(s =~= Seq::empty());
        assert(!pieces[0].contains(sep));
    } else {
        let c = s.last();
        let front = s.drop_last();
        let before = split_on(front, sep);
        law_pieces_give_the_string_back(front, sep);
        assert(s =~= front.push(c));
        if c == sep {
            assert(pieces.drop_last() =~= before);
            assert(joined(pieces, sep) =~= s);
            assert forall|i: int| 0 <= i < pieces.len() implies !(#[trigger] pieces[i]).contains(
                sep,
            ) by {
                if i < before.len() {
                    assert(pieces[i] == before[i]);
                }
            }
        } else {
            let last = before.last().push(c);
            assert(pieces.drop_last() =~= before.drop_last());
            if before.len() > 1 {
                assert(joined(pieces, sep) =~= joined(before, sep).push(c));
            }
            assert(joined(pieces, sep) =~= s);
            assert forall|i: int| 0 <= i < pieces.len() implies !(#[trigger] pieces[i]).contains(
                sep,
            ) by {
                if i < before.len() - 1 {
                    assert(pieces[i] == before[i]);
                } else {
                    let old_last = before[before.len() - 1];
                    assert(!old_last.contains(sep));
                    if last.contains(sep) {
                        let k = last.index_of(sep);
                        if k < old_last.len() {
                            assert(old_last[k] == sep);
                        }
                    }
                }
            }
        }
    }
}

proof fn lemma_split_append(x: Seq<char>, y: Seq<char>, sep: char)
    ensures
        split_on(x.push(sep) + y, sep) == split_on(x, sep) + split_on(y, sep),
    decreases y.len(),
{
    let whole = x.push(sep) + y;
    if y.len() == 0 {
        assert(whole =~= x.push(sep));
        assert(x.push(sep).drop_last() =~= x);
        assert(split_on(whole, sep) =~= split_on(x, sep) + split_on(y, sep));
    } else {
        let front = y.drop_last();
        lemma_split_append(x, front, sep);
        law_pieces_give_the_string_back(front, sep);
        assert(whole.drop_last() =~= x.push(sep) + front);
        assert(whole.last() == y.last());
        let before = split_on(x, sep) + split_on(front, sep);
        assert(before.last() == split_on(front, sep).last());
        assert(before.drop_last() =~= split_on(x, sep) + split_on(front, sep).drop_last());
        assert(split_on(whole, sep) =~= split_on(x, sep) + split_on(y, sep));
    }
}

proof fn lemma_split_whole(s: Seq<char>, sep: char)
    requires
        !s.contains(sep),
    ensures
        split_on(s, sep) == seq![s],
    decreases s.len(),
{
    if s.len() > 0 {
        let front = s.drop_last();
        assert(s[s.len() - 1] != sep);
        if front.contains(sep) {
            assert(s[front.index_of(sep)] == sep);
        }
        lemma_split_whole(front, sep);
        assert(front.push(s.last()) =~= s);
        assert(split_on(s, sep) =~= seq![s]);
    } else {
        assert(s =~= Seq::empty());
        assert(split_on(s, sep) =~= seq![s]);
    }
}

/// The first segment of a path is what stands between the slashes that the path begins with and the next
/// slash. A path of slashes alone has none.
pub proof fn law_the_first_segment_stands_between_slashes(
    slashes: Seq<char>,
    segment: Seq<char>,
    tail: Seq<char>,
)
    requires
        forall|i: int| 0 <= i < slashes.len() ==> (#[trigger] slashes[i]) == '/',
        !segment.contains('/'),
        tail.len() > 0 ==> tail[0] == '/',
    ensures
        segment.len() > 0 ==> first_segment_of(slashes + segment + tail) == Some(segment),
        first_segment_of(slashes) is None,
    decreases slashes.len(),
{
    if slashes.len() > 0 {
        let rest = slashes.drop_first();
        assert forall|i: int| 0 <= i < rest.len() implies (#[trigger] rest[i]) == '/' by {
            assert(slashes[i + 1] == '/');
        }
        law_the_first_segment_stands_between_slashes(rest, segment, tail);
        let none = Seq::<char>::empty();
        assert(slashes[0] == '/');
        assert(slashes =~= none.push('/') + rest);
        assert(slashes + segment + tail =~= none.push('/') + (rest + segment + tail));
        lemma_split_append(none, rest, '/');
        lemma_split_append(none, rest + segment + tail, '/');
        let a = split_on(slashes, '/');
        let b = split_on(slashes + segment + tail, '/');
        assert(a.first() == none);
        assert(a.drop_first() =~= split_on(rest, '/'));
        assert(b.first() == none);
        assert(b.drop_first() =~= split_on(rest + segment + tail, '/'));
    } else {
        assert(slashes =~= Seq::empty());
        let pieces = split_on(slashes, '/');
        assert(pieces =~= seq![Seq::<char>::empty()]);
        assert(pieces.drop_first() =~= Seq::empty());
        assert(first_filled(pieces.drop_first()) is None);
        if segment.len() > 0 {
            lemma_split_whole(segment, '/');
            if tail.len() > 0 {
                let rest = tail.drop_first();
                assert(slashes + segment + tail =~= segment.push('/') + rest);
                lemma_split_append(segment, rest, '/');
                assert(split_on(slashes + segment + tail, '/').first() == segment);
            } else {
                assert(slashes + segment + tail =~= segment);
                assert(split_on(segment, '/').first() == segment);
            }
        }
    }
}

/// Strings are seen as their characters, in lists and where there may be none too.
pub proof fn law_strings_are_seen_as_their_characters(a: String, b: &str, list: Seq<String>, i: int)
    ensures
        opt_string(Some(a)) == Some(a@),
        opt_string(None) is None,
        opt_text(Some(b)) == Some(b@),
        opt_text(None) is None,
        texts(list).len() == list.len(),
        0 <= i < list.len() ==> texts(list)[i] == list[i]@,
{
}

} // verus!
