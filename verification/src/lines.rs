//! Taking texts apart at separators, and putting them together again.
use vstd::prelude::*;
use vstd::slice::slice_subrange;
use vstd::utf8::{encode_scalar, encode_utf8};

use crate::text::{chars_of, find_class, lemma_next, lemma_next_is, next, push_all, views, Class};

verus! {

// ───────────────────────── splitting ─────────────────────────

/// The pieces of `s` between the separators `c`. There is always one more of them than
/// there are separators.
pub open spec fn pieces(s: Seq<char>, c: char) -> Seq<Seq<char>> {
    pieces_from(s, c, 0)
}

/// The pieces of what stands in `s` from `from` on.
pub open spec fn pieces_from(s: Seq<char>, c: char, from: int) -> Seq<Seq<char>>
    decreases s.len() - from,
{
    if 0 <= from <= s.len() {
        let k = next(s, Class::Is(c), from);
        proof {
            lemma_next(s, Class::Is(c), from);
        }
        if k < s.len() {
            seq![s.subrange(from, k)] + pieces_from(s, c, k + 1)
        } else {
            seq![s.subrange(from, s.len() as int)]
        }
    } else {
        seq![]
    }
}

/// Splits `s` at every `c`.
pub fn split<'a>(s: &'a [char], c: char) -> (r: Vec<&'a [char]>)
    ensures
        views(r@) == pieces(s@, c),
        r@.len() >= 1,
{
    let mut out: Vec<&'a [char]> = Vec::new();
    let mut from: usize = 0;
    assert(views(out@) =~= seq![]);
    loop
        invariant
            from <= s@.len(),
            pieces(s@, c) =~= views(out@) + pieces_from(s@, c, from as int),
        decreases s.len() - from,
    {
        let k: usize = find_class(s, Class::Is(c), from);
        let ghost before = out@;
        if k < s.len() {
            out.push(slice_subrange(s, from, k));
            assert(views(out@) =~= views(before).push(s@.subrange(from as int, k as int)));
            from = k + 1;
        } else {
            out.push(slice_subrange(s, from, s.len()));
            assert(views(out@) =~= views(before).push(
                s@.subrange(from as int, s@.len() as int),
            ));
            return out;
        }
    }
}

/// The two sides of the first `c` in `s`.
pub open spec fn split_once(s: Seq<char>, c: char) -> Option<(Seq<char>, Seq<char>)> {
    let k = next(s, Class::Is(c), 0);
    if k < s.len() {
        Some((s.subrange(0, k), s.subrange(k + 1, s.len() as int)))
    } else {
        None
    }
}

/// Splits `s` at the first `c`.
pub fn cut<'a>(s: &'a [char], c: char) -> (r: Option<(&'a [char], &'a [char])>)
    ensures
        match r {
            Some((a, b)) => split_once(s@, c) == Some((a@, b@)),
            None => split_once(s@, c) is None,
        },
{
    let k: usize = find_class(s, Class::Is(c), 0);
    if k < s.len() {
        Some((slice_subrange(s, 0, k), slice_subrange(s, k + 1, s.len())))
    } else {
        None
    }
}

/// A line without the carriage return before its end.
pub open spec fn without_cr(s: Seq<char>) -> Seq<char> {
    if s.len() > 0 && s.last() == '\r' {
        s.drop_last()
    } else {
        s
    }
}

/// `s` without a carriage return at its end.
pub fn drop_cr(s: &[char]) -> (r: &[char])
    ensures
        r@ == without_cr(s@),
{
    if s.len() > 0 && s[s.len() - 1] == '\r' {
        let r: &[char] = slice_subrange(s, 0, s.len() - 1);
        assert(r@ =~= s@.drop_last());
        r
    } else {
        s
    }
}

/// The lines of `s`. A line ends at a newline, with or without a carriage return before it;
/// the last one may go without.
pub open spec fn lines_of(s: Seq<char>) -> Seq<Seq<char>> {
    lines_from(s, 0)
}

/// The lines of what stands in `s` from `from` on.
pub open spec fn lines_from(s: Seq<char>, from: int) -> Seq<Seq<char>>
    decreases s.len() - from,
{
    if 0 <= from < s.len() {
        let k = next(s, Class::Is('\n'), from);
        proof {
            lemma_next(s, Class::Is('\n'), from);
        }
        if k < s.len() {
            seq![without_cr(s.subrange(from, k))] + lines_from(s, k + 1)
        } else {
            seq![s.subrange(from, s.len() as int)]
        }
    } else {
        seq![]
    }
}

/// Splits `s` into lines.
pub fn split_lines<'a>(s: &'a [char]) -> (r: Vec<&'a [char]>)
    ensures
        views(r@) == lines_of(s@),
{
    let mut out: Vec<&'a [char]> = Vec::new();
    let mut from: usize = 0;
    assert(views(out@) =~= seq![]);
    while from < s.len()
        invariant
            from <= s@.len(),
            lines_of(s@) =~= views(out@) + lines_from(s@, from as int),
        decreases s.len() - from,
    {
        let k: usize = find_class(s, Class::Is('\n'), from);
        let ghost before = out@;
        if k < s.len() {
            out.push(drop_cr(slice_subrange(s, from, k)));
            assert(views(out@) =~= views(before).push(
                without_cr(s@.subrange(from as int, k as int)),
            ));
            from = k + 1;
        } else {
            out.push(slice_subrange(s, from, s.len()));
            assert(views(out@) =~= views(before).push(
                s@.subrange(from as int, s@.len() as int),
            ));
            from = s.len();
        }
    }
    out
}

/// The words of `s`: its longest stretches without white space.
pub open spec fn words_of(s: Seq<char>) -> Seq<Seq<char>> {
    words_from(s, 0)
}

/// The words of what stands in `s` from `from` on.
pub open spec fn words_from(s: Seq<char>, from: int) -> Seq<Seq<char>>
    decreases s.len() - from,
{
    if 0 <= from <= s.len() {
        let a = next(s, Class::Ink, from);
        proof {
            lemma_next(s, Class::Ink, from);
            lemma_next(s, Class::Whitespace, a);
        }
        if a < s.len() {
            let b = next(s, Class::Whitespace, a);
            seq![s.subrange(a, b)] + words_from(s, b)
        } else {
            seq![]
        }
    } else {
        seq![]
    }
}

/// Splits `s` at white space.
pub fn split_words<'a>(s: &'a [char]) -> (r: Vec<&'a [char]>)
    ensures
        views(r@) == words_of(s@),
{
    let mut out: Vec<&'a [char]> = Vec::new();
    let mut from: usize = 0;
    assert(views(out@) =~= seq![]);
    loop
        invariant
            from <= s@.len(),
            words_of(s@) =~= views(out@) + words_from(s@, from as int),
        decreases s.len() - from,
    {
        let a: usize = find_class(s, Class::Ink, from);
        if a >= s.len() {
            return out;
        }
        let b: usize = find_class(s, Class::Whitespace, a);
        let ghost before = out@;
        out.push(slice_subrange(s, a, b));
        assert(views(out@) =~= views(before).push(s@.subrange(a as int, b as int)));
        from = b;
    }
}

// ───────────────────────── joining ─────────────────────────

/// The texts one after the other, with `sep` between them.
pub open spec fn joined(parts: Seq<Seq<char>>, sep: Seq<char>) -> Seq<char>
    decreases parts.len(),
{
    if parts.len() == 0 {
        seq![]
    } else if parts.len() == 1 {
        parts[0]
    } else {
        joined(parts.drop_last(), sep) + sep + parts.last()
    }
}

/// Joins the lines `parts` with newlines.
pub fn join_lines(parts: &[&[char]]) -> (r: Vec<char>)
    ensures
        r@ == joined(views(parts@), seq!['\n']),
{
    let ghost v = views(parts@);
    let mut out: Vec<char> = Vec::new();
    let mut i: usize = 0;
    while i < parts.len()
        invariant
            i <= parts@.len(),
            v == views(parts@),
            out@ == joined(v.take(i as int), seq!['\n']),
        decreases parts.len() - i,
    {
        assert(v.take(i + 1).drop_last() =~= v.take(i as int));
        if i > 0 {
            out.push('\n');
        }
        push_all(&mut out, parts[i]);
        proof {
            if i > 0 {
                assert(out@ =~= joined(v.take(i as int), seq!['\n']) + seq!['\n'] + v[i as int]);
            } else {
                assert(out@ =~= v[0]);
            }
        }
        i += 1;
    }
    assert(v.take(i as int) =~= v);
    out
}

/// Looking in a text that stands behind another one is looking in the text.
pub proof fn lemma_next_behind(a: Seq<char>, t: Seq<char>, k: Class, from: int)
    requires
        0 <= from <= t.len(),
    ensures
        next(a + t, k, a.len() + from) == a.len() + next(t, k, from),
    decreases t.len() - from,
{
    if from < t.len() {
        assert((a + t)[a.len() + from] == t[from]);
        if !k.admits(t[from]) {
            lemma_next_behind(a, t, k, from + 1);
        }
    }
}

/// Splitting what stands behind another text is splitting the text.
pub proof fn lemma_pieces_behind(a: Seq<char>, t: Seq<char>, c: char, from: int)
    requires
        0 <= from <= t.len(),
    ensures
        pieces_from(a + t, c, a.len() + from) == pieces_from(t, c, from),
    decreases t.len() - from,
{
    let k = next(t, Class::Is(c), from);
    lemma_next(t, Class::Is(c), from);
    lemma_next_behind(a, t, Class::Is(c), from);
    assert((a + t).subrange(a.len() + from, a.len() + k) =~= t.subrange(from, k));
    if k < t.len() {
        lemma_pieces_behind(a, t, c, k + 1);
    }
}

/// A text that is put before others comes first in what they join to.
pub proof fn lemma_joined_front(first: Seq<char>, rest: Seq<Seq<char>>, sep: Seq<char>)
    requires
        rest.len() >= 1,
    ensures
        joined(seq![first] + rest, sep) == first + sep + joined(rest, sep),
    decreases rest.len(),
{
    let all = seq![first] + rest;
    assert(all.drop_last() =~= seq![first] + rest.drop_last());
    if rest.len() > 1 {
        lemma_joined_front(first, rest.drop_last(), sep);
        assert(joined(all, sep) =~= first + sep + joined(rest, sep));
    } else {
        assert(all.drop_last() =~= seq![first]);
        assert(joined(all.drop_last(), sep) == first);
        assert(joined(all, sep) =~= first + sep + joined(rest, sep));
    }
}

/// Joining texts with a separator that none of them holds, and splitting at that separator,
/// gives the texts back.
pub proof fn split_after_join(parts: Seq<Seq<char>>, c: char)
    requires
        parts.len() >= 1,
        forall|i: int| 0 <= i < parts.len() ==> !(#[trigger] parts[i]).contains(c),
    ensures
        pieces(joined(parts, seq![c]), c) == parts,
    decreases parts.len(),
{
    let first = parts[0];
    let s = joined(parts, seq![c]);
    assert(!first.contains(c));
    assert forall|i: int| 0 <= i < first.len() implies !Class::Is(c).admits(#[trigger] first[i]) by {
        assert(first.contains(first[i]));
    }
    if parts.len() == 1 {
        crate::text::lemma_next_is(s, Class::Is(c), 0, s.len() as int);
        assert(s.subrange(0, s.len() as int) =~= s);
        assert(pieces(s, c) =~= parts);
    } else {
        let rest = parts.drop_first();
        assert(seq![first] + rest =~= parts);
        lemma_joined_front(first, rest, seq![c]);
        assert forall|i: int| 0 <= i < rest.len() implies !(#[trigger] rest[i]).contains(c) by {
            assert(rest[i] == parts[i + 1]);
        }
        split_after_join(rest, c);
        let head = first + seq![c];
        let tail = joined(rest, seq![c]);
        assert(s == head + tail);
        assert(s[first.len() as int] == c);
        assert forall|i: int| 0 <= i < first.len() implies !Class::Is(c).admits(#[trigger] s[i]) by {
            assert(s[i] == first[i]);
        }
        crate::text::lemma_next_is(s, Class::Is(c), 0, first.len() as int);
        lemma_pieces_behind(head, tail, c, 0);
        assert(s.subrange(0, first.len() as int) =~= first);
        assert(pieces(s, c) =~= seq![first] + rest);
    }
}

/// No piece of a text holds the separator, and joining the pieces gives the text back.
pub proof fn lemma_pieces(s: Seq<char>, c: char, from: int)
    requires
        0 <= from <= s.len(),
    ensures
        pieces_from(s, c, from).len() >= 1,
        forall|i: int|
            0 <= i < pieces_from(s, c, from).len() ==> !(#[trigger] pieces_from(
                s,
                c,
                from,
            )[i]).contains(c),
        joined(pieces_from(s, c, from), seq![c]) == s.subrange(from, s.len() as int),
    decreases s.len() - from,
{
    let k = next(s, Class::Is(c), from);
    lemma_next(s, Class::Is(c), from);
    let first = s.subrange(from, k);
    assert(!first.contains(c)) by {
        assert forall|i: int| 0 <= i < first.len() implies first[i] != c by {
            assert(!Class::Is(c).admits(s[from + i]));
        }
    }
    if k < s.len() {
        lemma_pieces(s, c, k + 1);
        let rest = pieces_from(s, c, k + 1);
        lemma_joined_front(first, rest, seq![c]);
        assert(first + seq![c] + s.subrange(k + 1, s.len() as int) =~= s.subrange(
            from,
            s.len() as int,
        ));
        assert forall|i: int| 0 <= i < pieces_from(s, c, from).len() implies !(
        #[trigger] pieces_from(s, c, from)[i]).contains(c) by {
            if i > 0 {
                assert(pieces_from(s, c, from)[i] == rest[i - 1]);
            }
        }
    }
}

/// Splitting a text and joining the pieces gives the text back.
pub proof fn join_after_split(s: Seq<char>, c: char)
    ensures
        joined(pieces(s, c), seq![c]) == s,
{
    lemma_pieces(s, c, 0);
    assert(s.subrange(0, s.len() as int) =~= s);
}

// ───────────────────────── replacing ─────────────────────────

/// `s` with `with` in the place of every `c`.
pub open spec fn replaced(s: Seq<char>, c: char, with: Seq<char>) -> Seq<char>
    decreases s.len(),
{
    if s.len() == 0 {
        seq![]
    } else if s.last() == c {
        replaced(s.drop_last(), c, with) + with
    } else {
        replaced(s.drop_last(), c, with).push(s.last())
    }
}

/// Puts `with` in the place of every `c` in `s`.
pub fn replace(s: &[char], c: char, with: &str) -> (r: Vec<char>)
    ensures
        r@ == replaced(s@, c, with@),
{
    let w: Vec<char> = chars_of(with);
    let mut out: Vec<char> = Vec::new();
    let mut i: usize = 0;
    while i < s.len()
        invariant
            i <= s@.len(),
            w@ == with@,
            out@ == replaced(s@.take(i as int), c, with@),
        decreases s.len() - i,
    {
        assert(s@.take(i + 1).drop_last() =~= s@.take(i as int));
        if s[i] == c {
            push_all(&mut out, w.as_slice());
        } else {
            out.push(s[i]);
        }
        i += 1;
    }
    assert(s@.take(i as int) =~= s@);
    out
}

// ───────────────────────── indentation ─────────────────────────

/// The number of bytes that `s` takes in UTF-8.
pub open spec fn byte_len(s: Seq<char>) -> nat {
    encode_utf8(s).len()
}

/// The text before the first character of `s` that is no white space.
pub open spec fn margin(s: Seq<char>) -> Seq<char> {
    s.subrange(0, next(s, Class::Ink, 0))
}

/// How far `s` is indented, in bytes.
pub open spec fn indentation(s: Seq<char>) -> nat {
    byte_len(margin(s))
}

/// A text whose bytes can be counted.
pub open spec fn countable(s: Seq<char>) -> bool {
    byte_len(s) <= usize::MAX
}

/// UTF-8 encodes a text piece by piece.
pub proof fn lemma_encode_concat(a: Seq<char>, b: Seq<char>)
    ensures
        encode_utf8(a + b) == encode_utf8(a) + encode_utf8(b),
    decreases a.len(),
{
    if a.len() == 0 {
        assert(a + b =~= b);
        assert(encode_utf8(a) + encode_utf8(b) =~= encode_utf8(b));
    } else {
        lemma_encode_concat(a.drop_first(), b);
        assert((a + b).drop_first() =~= a.drop_first() + b);
        assert((a + b)[0] == a[0]);
        assert(encode_utf8(a + b) =~= encode_utf8(a) + encode_utf8(b));
    }
}

/// A stretch of a text takes no more bytes than the text.
pub proof fn lemma_byte_len_subrange(s: Seq<char>, i: int, j: int)
    requires
        0 <= i <= j <= s.len(),
    ensures
        byte_len(s.subrange(i, j)) <= byte_len(s),
{
    let a = s.subrange(0, i);
    let b = s.subrange(i, j);
    let c = s.subrange(j, s.len() as int);
    lemma_encode_concat(a, b);
    lemma_encode_concat(a + b, c);
    assert(a + b + c =~= s);
}

/// A character is written without the byte of an ASCII character, unless it is that character.
proof fn lemma_scalar_bytes(c: char, d: char)
    requires
        c != d,
        d <= '\u{7f}',
    ensures
        forall|i: int| 0 <= i < encode_scalar(c as u32).len() ==> #[trigger] encode_scalar(
            c as u32,
        )[i] != d as u8,
{
    let v = c as u32;
    assert(v <= 0x7f ==> (v & 0x7f) as u8 == v as u8) by (bit_vector);
    assert(0xc0 | ((v >> 6) & 0x1f) as u8 >= 0x80) by (bit_vector);
    assert(0xe0 | ((v >> 12) & 0x0f) as u8 >= 0x80) by (bit_vector);
    assert(0xf0 | ((v >> 18) & 0x7) as u8 >= 0x80) by (bit_vector);
    assert(0x80 | (v & 0x3f) as u8 >= 0x80) by (bit_vector);
    assert(0x80 | ((v >> 6) & 0x3f) as u8 >= 0x80) by (bit_vector);
    assert(0x80 | ((v >> 12) & 0x3f) as u8 >= 0x80) by (bit_vector);
}

/// A text that does not hold an ASCII character is written without its byte.
pub proof fn lemma_no_byte(s: Seq<char>, d: char)
    requires
        !s.contains(d),
        d <= '\u{7f}',
    ensures
        forall|i: int| 0 <= i < encode_utf8(s).len() ==> #[trigger] encode_utf8(s)[i] != d as u8,
    decreases s.len(),
{
    if s.len() > 0 {
        let rest = s.drop_first();
        assert(s.contains(s[0]));
        lemma_scalar_bytes(s[0], d);
        assert forall|i: int| 0 <= i < rest.len() implies #[trigger] rest[i] != d by {
            assert(rest[i] == s[i + 1]);
            assert(s.contains(s[i + 1]));
        }
        lemma_no_byte(rest, d);
        let a = encode_scalar(s[0] as u32);
        let b = encode_utf8(rest);
        assert forall|i: int| 0 <= i < encode_utf8(s).len() implies #[trigger] encode_utf8(s)[i]
            != d as u8 by {
            if i < a.len() {
                assert(encode_utf8(s)[i] == a[i]);
            } else {
                assert(encode_utf8(s)[i] == b[i - a.len()]);
            }
        }
    }
}

/// One more character takes that character's bytes more.
pub proof fn lemma_byte_len_push(s: Seq<char>, c: char)
    ensures
        byte_len(s.push(c)) == byte_len(s) + encode_scalar(c as u32).len(),
{
    assert(s.push(c) =~= s + seq![c]);
    lemma_encode_concat(s, seq![c]);
    assert(seq![c].drop_first() =~= seq![]);
    reveal_with_fuel(encode_utf8, 2);
}

/// Every line of a text takes no more bytes than the text.
pub proof fn lemma_lines_countable(s: Seq<char>, from: int)
    requires
        0 <= from <= s.len(),
    ensures
        forall|i: int|
            0 <= i < lines_from(s, from).len() ==> byte_len(#[trigger] lines_from(s, from)[i])
                <= byte_len(s),
    decreases s.len() - from,
{
    if from < s.len() {
        let k = next(s, Class::Is('\n'), from);
        lemma_next(s, Class::Is('\n'), from);
        lemma_byte_len_subrange(s, from, k);
        if k < s.len() {
            let line = s.subrange(from, k);
            if line.len() > 0 {
                assert(line.drop_last() =~= line.subrange(0, line.len() - 1));
                lemma_byte_len_subrange(line, 0, line.len() - 1);
            }
            lemma_lines_countable(s, k + 1);
            let rest = lines_from(s, k + 1);
            assert forall|i: int| 0 <= i < lines_from(s, from).len() implies byte_len(
                #[trigger] lines_from(s, from)[i],
            ) <= byte_len(s) by {
                if i > 0 {
                    assert(lines_from(s, from)[i] == rest[i - 1]);
                }
            }
        }
    }
}

/// Every piece of a text takes no more bytes than the text.
pub proof fn lemma_pieces_countable(s: Seq<char>, c: char, from: int)
    requires
        0 <= from <= s.len(),
    ensures
        forall|i: int|
            0 <= i < pieces_from(s, c, from).len() ==> byte_len(
                #[trigger] pieces_from(s, c, from)[i],
            ) <= byte_len(s),
    decreases s.len() - from,
{
    let k = next(s, Class::Is(c), from);
    lemma_next(s, Class::Is(c), from);
    lemma_byte_len_subrange(s, from, k);
    if k < s.len() {
        lemma_pieces_countable(s, c, k + 1);
        let rest = pieces_from(s, c, k + 1);
        assert forall|i: int| 0 <= i < pieces_from(s, c, from).len() implies byte_len(
            #[trigger] pieces_from(s, c, from)[i],
        ) <= byte_len(s) by {
            if i > 0 {
                assert(pieces_from(s, c, from)[i] == rest[i - 1]);
            }
        }
    }
}

/// The bytes that `c` takes in UTF-8.
pub fn char_width(c: char) -> (r: usize)
    ensures
        r == encode_scalar(c as u32).len(),
        1 <= r <= 4,
{
    if c <= '\u{7f}' {
        1
    } else if c <= '\u{7ff}' {
        2
    } else if c <= '\u{ffff}' {
        3
    } else {
        4
    }
}

/// How far `s` is indented, in bytes.
pub fn indent(s: &[char]) -> (r: usize)
    requires
        countable(s@),
    ensures
        r == indentation(s@),
{
    let n: usize = find_class(s, Class::Ink, 0);
    let mut total: usize = 0;
    let mut i: usize = 0;
    assert(s@.subrange(0, 0) =~= seq![]);
    while i < n
        invariant
            i <= n <= s@.len(),
            countable(s@),
            total == byte_len(s@.subrange(0, i as int)),
        decreases n - i,
    {
        proof {
            assert(s@.subrange(0, i + 1) =~= s@.subrange(0, i as int).push(s@[i as int]));
            lemma_byte_len_push(s@.subrange(0, i as int), s@[i as int]);
            lemma_byte_len_subrange(s@, 0, i + 1);
        }
        total = total + char_width(s[i]);
        i += 1;
    }
    total
}

/// A text is split at a character where that character first stands.
pub proof fn lemma_split_once(a: Seq<char>, c: char, b: Seq<char>)
    requires
        !a.contains(c),
    ensures
        split_once(a + seq![c] + b, c) == Some((a, b)),
{
    let s = a + seq![c] + b;
    let n = a.len() as int;
    assert forall|i: int| 0 <= i < n implies !Class::Is(c).admits(#[trigger] s[i]) by {
        assert(s[i] == a[i]);
        assert(a.contains(a[i]));
    }
    assert(s[n] == c);
    lemma_next_is(s, Class::Is(c), 0, n);
    assert(s.subrange(0, n) =~= a);
    assert(s.subrange(n + 1, s.len() as int) =~= b);
}

proof fn lemma_lines_behind(a: Seq<char>, t: Seq<char>, from: int)
    requires
        0 <= from <= t.len(),
    ensures
        lines_from(a + t, a.len() + from) == lines_from(t, from),
    decreases t.len() - from,
{
    let s = a + t;
    if from < t.len() {
        let k = next(t, Class::Is('\n'), from);
        lemma_next(t, Class::Is('\n'), from);
        lemma_next_behind(a, t, Class::Is('\n'), from);
        assert(s.subrange(a.len() + from, a.len() + k) =~= t.subrange(from, k));
        if k < t.len() {
            lemma_lines_behind(a, t, k + 1);
        } else {
            assert(s.subrange(a.len() + from, s.len() as int) =~= t.subrange(from, t.len() as int));
        }
    }
}

/// Lines are read as they were written, whether each ends with a newline or with a carriage return
/// and a newline. An end behind the last one makes no difference.
pub proof fn lines_after_join(parts: Seq<Seq<char>>, cr: bool)
    requires
        parts.len() > 0,
        forall|i: int|
            0 <= i < parts.len() ==> !(#[trigger] parts[i]).contains('\n') && (parts[i].len() > 0
                ==> parts[i].last() != '\r'),
    ensures
        ({
            let sep = if cr {
                seq!['\r', '\n']
            } else {
                seq!['\n']
            };
            lines_of(joined(parts, sep)) == (if parts.last().len() == 0 {
                parts.drop_last()
            } else {
                parts
            })
        }),
    decreases parts.len(),
{
    let sep = if cr {
        seq!['\r', '\n']
    } else {
        seq!['\n']
    };
    let first = parts[0];
    let n = first.len() as int;
    if parts.len() == 1 {
        assert(parts.drop_last() =~= seq![]);
        assert(joined(parts, sep) =~= first) by {
            reveal_with_fuel(joined, 2);
        }
        if n > 0 {
            assert forall|i: int| 0 <= i < n implies !Class::Is('\n').admits(
                #[trigger] first[i],
            ) by {
                assert(first.contains(first[i]));
            }
            lemma_next_is(first, Class::Is('\n'), 0, n);
            assert(first.subrange(0, n) =~= first);
            assert(seq![first] =~= parts);
        }
    } else {
        let rest = parts.drop_first();
        assert forall|i: int| 0 <= i < rest.len() implies !(#[trigger] rest[i]).contains('\n')
            && (rest[i].len() > 0 ==> rest[i].last() != '\r') by {
            assert(rest[i] == parts[i + 1]);
        }
        lines_after_join(rest, cr);
        lemma_joined_front(first, rest, sep);
        assert(seq![first] + rest =~= parts);
        let t = joined(rest, sep);
        let head = first + sep;
        let s = joined(parts, sep);
        assert(s =~= head + t);
        let k = head.len() - 1;
        assert forall|i: int| 0 <= i < k implies !Class::Is('\n').admits(#[trigger] s[i]) by {
            if i < n {
                assert(s[i] == first[i]);
                assert(first.contains(first[i]));
            }
        }
        assert(s[k] == '\n');
        lemma_next_is(s, Class::Is('\n'), 0, k);
        lemma_lines_behind(head, t, 0);
        let line = s.subrange(0, k);
        if cr {
            assert(line =~= first.push('\r'));
            assert(line.drop_last() =~= first);
        } else {
            assert(line =~= first);
        }
        assert(without_cr(line) == first);
        assert(parts.last() == rest.last());
        if parts.last().len() == 0 {
            assert(seq![first] + rest.drop_last() =~= parts.drop_last());
        }
    }
}

proof fn lemma_replaced_plain(s: Seq<char>, c: char, with: Seq<char>)
    requires
        !s.contains(c),
    ensures
        replaced(s, c, with) == s,
    decreases s.len(),
{
    if s.len() > 0 {
        let front = s.drop_last();
        assert(s.contains(s[s.len() - 1]));
        assert forall|i: int| 0 <= i < front.len() implies #[trigger] front[i] != c by {
            assert(s.contains(s[i]));
        }
        lemma_replaced_plain(front, c, with);
        assert(front.push(s.last()) =~= s);
    }
}

proof fn lemma_replaced_concat(a: Seq<char>, b: Seq<char>, c: char, with: Seq<char>)
    ensures
        replaced(a + b, c, with) == replaced(a, c, with) + replaced(b, c, with),
    decreases b.len(),
{
    if b.len() == 0 {
        assert(a + b =~= a);
        assert(replaced(a, c, with) + replaced(b, c, with) =~= replaced(a, c, with));
    } else {
        assert((a + b).drop_last() =~= a + b.drop_last());
        assert((a + b).last() == b.last());
        lemma_replaced_concat(a, b.drop_last(), c, with);
        assert(replaced(a + b, c, with) =~= replaced(a, c, with) + replaced(b, c, with));
    }
}

/// Every occurrence of a character is replaced, and nothing else is: the pieces between the
/// occurrences stay, with what replaces them between each two.
pub proof fn every_occurrence_is_replaced(parts: Seq<Seq<char>>, c: char, with: Seq<char>)
    requires
        parts.len() > 0,
        forall|i: int| 0 <= i < parts.len() ==> !(#[trigger] parts[i]).contains(c),
    ensures
        replaced(joined(parts, seq![c]), c, with) == joined(parts, with),
    decreases parts.len(),
{
    let last = parts.last();
    assert(parts[parts.len() - 1] == last);
    lemma_replaced_plain(last, c, with);
    if parts.len() > 1 {
        let front = parts.drop_last();
        assert forall|i: int| 0 <= i < front.len() implies !(#[trigger] front[i]).contains(c) by {
            assert(front[i] == parts[i]);
        }
        every_occurrence_is_replaced(front, c, with);
        let a = joined(front, seq![c]);
        lemma_replaced_concat(a + seq![c], last, c, with);
        lemma_replaced_concat(a, seq![c], c, with);
        assert(seq![c].drop_last() =~= seq![]);
        assert(replaced(seq![c], c, with) =~= with) by {
            reveal_with_fuel(replaced, 2);
        }
        assert(joined(parts, seq![c]) == a + seq![c] + last);
        assert(joined(parts, with) == joined(front, with) + with + last);
    }
}

} // verus!
