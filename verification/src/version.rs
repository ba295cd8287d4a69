//! Releases: which of two versions is newer, and which version a release's address names.

use crate::text;
use vstd::prelude::*;

verus! {

/// Whether a character is a decimal digit.
pub open spec fn digit(c: char) -> bool {
    '0' <= c <= '9'
}

/// Whether every character is a decimal digit.
pub open spec fn all_digits(s: Seq<char>) -> bool {
    forall|i: int| 0 <= i < s.len() ==> digit(#[trigger] s[i])
}

/// The number that decimal digits spell.
pub open spec fn decimal_value(digits: Seq<char>) -> nat
    decreases digits.len(),
{
    if digits.len() == 0 {
        0
    } else {
        (decimal_value(digits.drop_last()) * 10 + (digits.last() as u32 - '0' as u32)) as nat
    }
}

/// A number without the plus sign that may stand before it.
pub open spec fn unsigned(s: Seq<char>) -> Seq<char> {
    if s.len() > 0 && s.first() == '+' {
        s.drop_first()
    } else {
        s
    }
}

/// The number that a piece of a version spells: decimal digits, with a plus sign before them or
/// without, of at most 32 bits.
pub open spec fn piece_value(s: Seq<char>) -> Option<nat> {
    let digits = unsigned(s);
    if digits.len() > 0 && all_digits(digits) && decimal_value(digits) <= u32::MAX {
        Some(decimal_value(digits))
    } else {
        None
    }
}

/// The numbers among the pieces of a version, in order.
pub open spec fn piece_values(pieces: Seq<Seq<char>>) -> Seq<nat>
    decreases pieces.len(),
{
    if pieces.len() == 0 {
        Seq::empty()
    } else {
        let before = piece_values(pieces.drop_last());
        match piece_value(pieces.last()) {
            Some(n) => before.push(n),
            None => before,
        }
    }
}

/// The numbers of a version: those among the pieces between its dots.
pub open spec fn version_numbers(version: Seq<char>) -> Seq<nat> {
    piece_values(text::split_on(version, '.'))
}

/// Whether a list of numbers comes before another in the order of a dictionary.
pub open spec fn before(a: Seq<nat>, b: Seq<nat>) -> bool
    decreases a.len(),
{
    if b.len() == 0 {
        false
    } else if a.len() == 0 {
        true
    } else {
        a.first() < b.first() || (a.first() == b.first() && before(a.drop_first(), b.drop_first()))
    }
}

/// The numbers of a list, for specifications.
pub open spec fn as_numbers(s: Seq<u32>) -> Seq<nat> {
    s.map_values(|n: u32| n as nat)
}

proof fn lemma_decimal_value_grows(digits: Seq<char>, n: int)
    requires
        all_digits(digits),
        0 <= n <= digits.len(),
    ensures
        decimal_value(digits.take(n)) <= decimal_value(digits),
    decreases digits.len() - n,
{
    if n < digits.len() {
        lemma_decimal_value_grows(digits, n + 1);
        assert(digits.take(n + 1).drop_last() =~= digits.take(n));
        assert(digit(digits[n]));
        assert(digits.take(n + 1).last() == digits[n]);
    } else {
        assert(digits.take(n) =~= digits);
    }
}

fn read_piece(s: &str) -> (r: Option<u32>)
    ensures
        match r {
            Some(n) => piece_value(s@) == Some(n as nat),
            None => piece_value(s@) is None,
        },
{
    let chars = text::characters(s);
    let from: usize = if chars.len() > 0 && chars[0] == '+' {
        1
    } else {
        0
    };
    let ghost digits = unsigned(s@);
    assert(digits =~= s@.skip(from as int));
    if from == chars.len() {
        return None;
    }
    let mut value: u32 = 0;
    let mut i: usize = from;
    assert(digits.take(0) =~= Seq::<char>::empty());
    while i < chars.len()
        invariant
            from <= i <= chars.len(),
            chars@ == s@,
            digits == s@.skip(from as int),
            digits == unsigned(s@),
            all_digits(digits.take(i - from)),
            value == decimal_value(digits.take(i - from)),
        decreases chars.len() - i,
    {
        let c = chars[i];
        let ghost n = i - from;
        assert(digits[n] == c);
        if c < '0' || '9' < c {
            assert(!digit(digits[n]));
            return None;
        }
        proof {
            assert(digits.take(n + 1).drop_last() =~= digits.take(n));
            assert(digits.take(n + 1).last() == c);
            assert(decimal_value(digits.take(n + 1)) == value * 10 + (c as u32 - '0' as u32));
            if all_digits(digits) {
                lemma_decimal_value_grows(digits, n + 1);
            }
            assert forall|k: int| 0 <= k < n + 1 implies digit(#[trigger] digits.take(n + 1)[k]) by {
                if k < n {
                    assert(digit(digits.take(n)[k]));
                }
            }
        }
        let wide: u64 = value as u64 * 10 + (c as u32 - '0' as u32) as u64;
        if wide > u32::MAX as u64 {
            return None;
        }
        value = wide as u32;
        i += 1;
    }
    assert(digits.take(i - from) =~= digits);
    Some(value)
}

fn read_version(version: &str) -> (r: Vec<u32>)
    ensures
        as_numbers(r@) == version_numbers(version@),
{
    let pieces = text::split(version, '.');
    let ghost all = text::texts(pieces@);
    let mut numbers: Vec<u32> = Vec::new();
    let mut i: usize = 0;
    assert(as_numbers(numbers@) =~= piece_values(all.take(0)));
    while i < pieces.len()
        invariant
            i <= pieces.len(),
            all == text::texts(pieces@),
            as_numbers(numbers@) == piece_values(all.take(i as int)),
        decreases pieces.len() - i,
    {
        assert(all.take(i + 1).drop_last() =~= all.take(i as int));
        assert(all.take(i + 1).last() == pieces@[i as int]@);
        if let Some(n) = read_piece(pieces[i].as_str()) {
            let ghost known = numbers@;
            numbers.push(n);
            assert(as_numbers(numbers@) =~= as_numbers(known).push(n as nat));
        }
        i += 1;
    }
    assert(all.take(i as int) =~= all);
    numbers
}

fn comes_before(a: &Vec<u32>, b: &Vec<u32>) -> (r: bool)
    ensures
        r == before(as_numbers(a@), as_numbers(b@)),
{
    let ghost p = as_numbers(a@);
    let ghost q = as_numbers(b@);
    let mut i: usize = 0;
    assert(p.skip(0) =~= p && q.skip(0) =~= q);
    while i < a.len() && i < b.len()
        invariant
            i <= a.len(),
            i <= b.len(),
            p == as_numbers(a@),
            q == as_numbers(b@),
            before(p, q) == before(p.skip(i as int), q.skip(i as int)),
        decreases a.len() - i,
    {
        assert(p.skip(i as int).drop_first() =~= p.skip(i + 1));
        assert(q.skip(i as int).drop_first() =~= q.skip(i + 1));
        if a[i] < b[i] {
            return true;
        }
        if b[i] < a[i] {
            return false;
        }
        i += 1;
    }
    i < b.len()
}

/// Whether one version is newer than another.
pub fn is_newer(latest: &str, current: &str) -> (r: bool)
    ensures
        r == before(version_numbers(current@), version_numbers(latest@)),
{
    let latest_numbers = read_version(latest);
    let current_numbers = read_version(current);
    comes_before(&current_numbers, &latest_numbers)
}

/// Whether `pattern` stands in `s` at a place.
pub open spec fn occurs_at(s: Seq<char>, pattern: Seq<char>, i: int) -> bool {
    &&& 0 <= i
    &&& i + pattern.len() <= s.len()
    &&& s.subrange(i, i + pattern.len()) == pattern
}

/// What stands in `s` behind the last occurrence of `pattern` at or before a place, or all of `s`.
pub open spec fn behind_last(s: Seq<char>, pattern: Seq<char>, i: nat) -> Seq<char>
    decreases i,
{
    if occurs_at(s, pattern, i as int) {
        s.skip((i + pattern.len()) as int)
    } else if i == 0 {
        s
    } else {
        behind_last(s, pattern, (i - 1) as nat)
    }
}

/// `s` without the letters `v` it begins with.
pub open spec fn without_v(s: Seq<char>) -> Seq<char>
    decreases s.len(),
{
    if s.len() > 0 && s.first() == 'v' {
        without_v(s.drop_first())
    } else {
        s
    }
}

/// The version that the address of a release names: what stands behind its last `/tag/`, trimmed,
/// without the letters `v` before it. An address that ends there names none.
pub open spec fn release_version(location: Seq<char>) -> Option<Seq<char>> {
    let tag = text::trimmed(behind_last(location, "/tag/"@, location.len()));
    if tag.len() == 0 {
        None
    } else {
        Some(without_v(tag))
    }
}

fn after_last<'a>(s: &'a str, pattern: &str) -> (r: &'a str)
    ensures
        r@ == behind_last(s@, pattern@, s@.len()),
{
    let len: usize = s.unicode_len();
    let n: usize = pattern.unicode_len();
    let mut i: usize = len;
    loop
        invariant
            i <= len == s@.len(),
            n == pattern@.len(),
            behind_last(s@, pattern@, i as nat) == behind_last(s@, pattern@, s@.len()),
        decreases i,
    {
        if n <= len - i && text::same_text(s.substring_char(i, i + n), pattern) {
            assert(s@.subrange(i + n, len as int) =~= s@.skip(i + n));
            return s.substring_char(i + n, len);
        }
        if i == 0 {
            return s;
        }
        i -= 1;
    }
}

/// The version that the address of a release names.
pub fn latest_version(location: &str) -> (r: Option<String>)
    ensures
        text::opt_string(r) == release_version(location@),
{
    let tag = text::trim(after_last(location, "/tag/"));
    if tag.is_empty() {
        return None;
    }
    let chars = text::characters(tag);
    let mut from: usize = 0;
    assert(tag@.skip(0) =~= tag@);
    while from < chars.len() && chars[from] == 'v'
        invariant
            from <= chars.len(),
            chars@ == tag@,
            without_v(tag@.skip(from as int)) == without_v(tag@),
        decreases chars.len() - from,
    {
        assert(tag@.skip(from as int).drop_first() =~= tag@.skip(from + 1));
        from += 1;
    }
    assert(tag@.subrange(from as int, tag@.len() as int) =~= tag@.skip(from as int));
    Some(tag.substring_char(from, chars.len()).to_owned())
}

/// No version is newer than itself.
pub proof fn law_no_version_is_newer_than_itself(a: Seq<nat>)
    ensures
        !before(a, a),
    decreases a.len(),
{
    if a.len() > 0 {
        law_no_version_is_newer_than_itself(a.drop_first());
    }
}

/// Of two versions with different numbers exactly one is newer.
pub proof fn law_one_of_two_versions_is_newer(a: Seq<nat>, b: Seq<nat>)
    requires
        a != b,
    ensures
        before(a, b) != before(b, a),
    decreases a.len(),
{
    if a.len() > 0 && b.len() > 0 && a.first() == b.first() {
        if a.drop_first() == b.drop_first() {
            assert(a =~= seq![a.first()] + a.drop_first());
            assert(b =~= seq![b.first()] + b.drop_first());
        }
        law_one_of_two_versions_is_newer(a.drop_first(), b.drop_first());
    } else if a.len() == 0 && b.len() == 0 {
        assert(a =~= b);
    }
}

/// A version that is newer than one that is newer than a third is newer than the third.
pub proof fn law_newer_is_transitive(a: Seq<nat>, b: Seq<nat>, c: Seq<nat>)
    requires
        before(a, b),
        before(b, c),
    ensures
        before(a, c),
    decreases a.len(),
{
    if a.len() > 0 && a.first() == b.first() && b.first() == c.first() {
        law_newer_is_transitive(a.drop_first(), b.drop_first(), c.drop_first());
    }
}

/// A version is newer when, at the first place where the two differ, its number is the greater one, or
/// the other one has ended there.
pub proof fn law_the_first_difference_decides(a: Seq<nat>, b: Seq<nat>, k: int)
    requires
        0 <= k <= a.len(),
        k <= b.len(),
        a.take(k) == b.take(k),
        k < a.len() && k < b.len() ==> a[k] != b[k],
    ensures
        before(a, b) <==> k < b.len() && (k == a.len() || a[k] < b[k]),
    decreases k,
{
    if k > 0 {
        assert(a[0] == a.take(k)[0] && b[0] == b.take(k)[0]);
        let x = a.drop_first();
        let y = b.drop_first();
        assert(x.take(k - 1) =~= a.take(k).drop_first());
        assert(y.take(k - 1) =~= b.take(k).drop_first());
        law_the_first_difference_decides(x, y, k - 1);
    }
}

/// Digits are read in decimal: one more on the right makes ten times the number and that digit.
pub proof fn law_digits_are_read_in_decimal(digits: Seq<char>, c: char)
    requires
        '0' <= c <= '9',
    ensures
        decimal_value(Seq::empty()) == 0,
        decimal_value(digits.push(c)) == decimal_value(digits) * 10 + (c as u32 - 48),
{
    assert(digits.push(c).drop_last() =~= digits);
}

/// A piece of a version is a number exactly when it is decimal digits, at least one, of at most 32 bits,
/// and one plus sign may stand before them.
pub proof fn law_a_piece_is_digits_with_or_without_a_plus(digits: Seq<char>)
    requires
        digits.len() > 0 ==> digits[0] != '+',
    ensures
        ({
            let number = digits.len() > 0 && (forall|i: int|
                0 <= i < digits.len() ==> '0' <= (#[trigger] digits[i]) <= '9') && decimal_value(
                digits,
            ) <= 0xffff_ffff;
            &&& number ==> piece_value(digits) == Some(decimal_value(digits))
            &&& !number ==> piece_value(digits) is None
            &&& piece_value(seq!['+'] + digits) == piece_value(digits)
            &&& piece_value(seq!['+', '+'] + digits) is None
        }),
{
    let plus = seq!['+'] + digits;
    assert(plus.drop_first() =~= digits);
    let twice = seq!['+', '+'] + digits;
    assert(twice.drop_first() =~= seq!['+'] + digits);
    assert(!digit(plus[0]));
    assert(all_digits(digits) <==> forall|i: int|
        0 <= i < digits.len() ==> '0' <= (#[trigger] digits[i]) <= '9') by {
        if forall|i: int| 0 <= i < digits.len() ==> '0' <= (#[trigger] digits[i]) <= '9' {
            assert forall|i: int| 0 <= i < digits.len() implies digit(#[trigger] digits[i]) by {}
        }
        if all_digits(digits) {
            assert forall|i: int| 0 <= i < digits.len() implies '0' <= (#[trigger] digits[i])
                <= '9' by {
                assert(digit(digits[i]));
            }
        }
    }
}

/// The numbers of a version are those among the pieces between its dots, in order: one more piece adds
/// its number, if it is one.
pub proof fn law_numbers_stand_between_dots(
    version: Seq<char>,
    pieces: Seq<Seq<char>>,
    piece: Seq<char>,
)
    ensures
        version_numbers(version) == piece_values(text::split_on(version, '.')),
        piece_values(Seq::empty()) == Seq::<nat>::empty(),
        piece_value(piece) matches Some(n) ==> piece_values(pieces.push(piece)) == piece_values(
            pieces,
        ).push(n),
        piece_value(piece) is None ==> piece_values(pieces.push(piece)) == piece_values(pieces),
{
    assert(pieces.push(piece).drop_last() =~= pieces);
}

proof fn lemma_behind_last(s: Seq<char>, pattern: Seq<char>, i: int, from: nat)
    requires
        0 <= i <= from,
        i + pattern.len() <= s.len(),
        s.subrange(i, i + pattern.len()) == pattern,
        forall|j: int| i < j && j + pattern.len() <= s.len() ==> (#[trigger] s.subrange(
            j,
            j + pattern.len(),
        )) != pattern,
    ensures
        behind_last(s, pattern, from) == s.skip(i + pattern.len()),
    decreases from,
{
    if from > i {
        lemma_behind_last(s, pattern, i, (from - 1) as nat);
    }
}

proof fn lemma_nothing_behind(s: Seq<char>, pattern: Seq<char>, from: nat)
    requires
        forall|j: int| 0 <= j && j + pattern.len() <= s.len() ==> (#[trigger] s.subrange(
            j,
            j + pattern.len(),
        )) != pattern,
    ensures
        behind_last(s, pattern, from) == s,
    decreases from,
{
    if from > 0 {
        lemma_nothing_behind(s, pattern, (from - 1) as nat);
    }
}

/// The version that an address names is what stands behind its last `/tag/`, or all of it where there is
/// no such place: without white space at the ends, and without the letters `v` that it begins with. A
/// blank tag names none.
pub proof fn law_the_version_stands_behind_the_last_tag(location: Seq<char>, i: int)
    requires
        ({
            let tag = seq!['/', 't', 'a', 'g', '/'];
            &&& -1 <= i
            &&& i >= 0 ==> i + 5 <= location.len() && location.subrange(i, i + 5) == tag
            &&& forall|j: int|
                i < j && 0 <= j && j + 5 <= location.len() ==> (#[trigger] location.subrange(
                    j,
                    j + 5,
                )) != tag
        }),
    ensures
        ({
            let rest = text::trimmed(
                if i >= 0 {
                    location.skip(i + 5)
                } else {
                    location
                },
            );
            if rest.len() == 0 {
                release_version(location) is None
            } else {
                release_version(location) == Some(without_v(rest))
            }
        }),
{
    reveal_strlit("/tag/");
    assert("/tag/"@ =~= seq!['/', 't', 'a', 'g', '/']);
    if i >= 0 {
        lemma_behind_last(location, "/tag/"@, i, location.len());
    } else {
        lemma_nothing_behind(location, "/tag/"@, location.len());
    }
}

/// The letters `v` that a tag begins with are taken away, all of them, and nothing else.
pub proof fn law_leading_letters_v_are_taken_away(vs: Seq<char>, rest: Seq<char>)
    requires
        forall|i: int| 0 <= i < vs.len() ==> (#[trigger] vs[i]) == 'v',
        rest.len() > 0 ==> rest[0] != 'v',
    ensures
        without_v(vs + rest) == rest,
    decreases vs.len(),
{
    if vs.len() > 0 {
        assert((vs + rest).first() == vs[0]);
        assert((vs + rest).drop_first() =~= vs.drop_first() + rest);
        law_leading_letters_v_are_taken_away(vs.drop_first(), rest);
    } else {
        assert(vs + rest =~= rest);
    }
}

} // verus!
