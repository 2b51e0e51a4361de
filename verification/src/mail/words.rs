//! Encoded words in header values: `=?charset?B?...?=` and `=?charset?Q?...?=`.
use vstd::prelude::*;
use vstd::slice::slice_subrange;
use vstd::utf8::{
    encode_utf8, encode_utf8_decode_utf8, encode_utf8_valid_utf8, is_ascii_chars,
    is_ascii_chars_encode_utf8,
};

use crate::lines::{cut, split_once};
use crate::mail::charset::{charset_of, classify_charset, decode_in, latin1, text_in, Charset};
use crate::mail::transfer::{
    base64_bytes, base64_round_trip, base64_written, decode_base64_bytes, decode_qp_word,
    lemma_base64_bytes, lemma_quoted_bytes, q_word, quoted, quoted_round_trip, word_byte,
};
use crate::text::{
    ascii_lower, blank, find_class, find_text, found, lemma_end_of_is, lemma_found, lemma_found_at,
    lemma_next, lemma_next_is, lemma_trimmed_is, next, occurs, push_all, string_of, Class,
};

verus! {

/// How long an encoded word is whose opening `=?` stands before `s`: up to and with the first
/// `?=` after the second question mark.
pub open spec fn word_len(s: Seq<char>) -> Option<int> {
    let q1 = next(s, Class::Is('?'), 0);
    let q2 = next(s, Class::Is('?'), q1 + 1);
    if q1 < s.len() && q2 < s.len() {
        match found(s, "?="@, q2 + 1) {
            Some(q3) => Some(q3 + 2),
            None => None,
        }
    } else {
        None
    }
}

/// `s` without a `?=` at its end.
pub open spec fn without_closing(s: Seq<char>) -> Seq<char> {
    if s.len() >= 2 && s[s.len() - 2] == '?' && s[s.len() - 1] == '=' {
        s.subrange(0, s.len() - 2)
    } else {
        s
    }
}

/// The bytes that the encoding `enc` of a word reads from its text.
pub open spec fn word_bytes(enc: Seq<char>, text: Seq<char>) -> Option<Seq<u8>> {
    if enc.len() == 1 && (enc[0] == 'B' || enc[0] == 'b') {
        Some(base64_bytes(encode_utf8(text)))
    } else if enc.len() == 1 && (enc[0] == 'Q' || enc[0] == 'q') {
        Some(q_word(encode_utf8(text)))
    } else {
        None
    }
}

/// The text of an encoded word without its opening `=?`: `charset?encoding?text?=`. There is
/// none where the encoding or the charset is not known.
pub open spec fn word_text(inner: Seq<char>) -> Option<Seq<char>> {
    match split_once(inner, '?') {
        Some((charset, rest)) => match split_once(rest, '?') {
            Some((enc, text)) => match (
                word_bytes(enc, without_closing(text)),
                charset_of(charset),
            ) {
                (Some(b), Some(c)) => Some(text_in(c, b)),
                _ => None,
            },
            None => None,
        },
        None => None,
    }
}

/// The encoded word at `i`: its text, and where it ends.
pub open spec fn word_at(s: Seq<char>, i: int) -> Option<(Seq<char>, int)> {
    if 0 <= i && i + 1 < s.len() && s[i] == '=' && s[i + 1] == '?' {
        let rest = s.subrange(i + 2, s.len() as int);
        match word_len(rest) {
            Some(n) => match word_text(rest.subrange(0, n)) {
                Some(t) => Some((t, i + 2 + n)),
                None => None,
            },
            None => None,
        }
    } else {
        None
    }
}

pub proof fn lemma_word_len(s: Seq<char>)
    ensures
        word_len(s) matches Some(n) ==> 0 < n <= s.len(),
{
    let q1 = next(s, Class::Is('?'), 0);
    lemma_next(s, Class::Is('?'), 0);
    if q1 < s.len() {
        let q2 = next(s, Class::Is('?'), q1 + 1);
        lemma_next(s, Class::Is('?'), q1 + 1);
        reveal_strlit("?=");
        lemma_found(s, "?="@, q2 + 1);
    }
}

pub proof fn lemma_word_at(s: Seq<char>, i: int)
    ensures
        word_at(s, i) matches Some((t, e)) ==> i + 2 < e <= s.len(),
{
    if 0 <= i && i + 1 < s.len() {
        lemma_word_len(s.subrange(i + 2, s.len() as int));
    }
}

/// A header value with its encoded words decoded and the rest as it is. White space between
/// two encoded words belongs to neither, and is left out.
pub open spec fn header_text(s: Seq<char>) -> Seq<char> {
    header_text_from(s, 0, false)
}

/// The same for what stands from `i` on; `after` says that an encoded word ends at `i`.
pub open spec fn header_text_from(s: Seq<char>, i: int, after: bool) -> Seq<char>
    decreases s.len() - i,
{
    if i < 0 || i >= s.len() {
        seq![]
    } else {
        let j = next(s, Class::Ink, i);
        proof {
            lemma_word_at(s, i);
            lemma_next(s, Class::Ink, i);
        }
        match word_at(s, i) {
            Some((t, e)) => t + header_text_from(s, e, true),
            None => if after && i < j && word_at(s, j) is Some {
                header_text_from(s, j, true)
            } else {
                seq![s[i]] + header_text_from(s, i + 1, false)
            },
        }
    }
}

/// How long an encoded word is whose opening `=?` stands before `s`.
pub fn find_encoded_word_end(s: &[char]) -> (r: Option<usize>)
    ensures
        match r {
            Some(n) => word_len(s@) == Some(n as int) && n <= s@.len(),
            None => word_len(s@) is None,
        },
{
    let q1: usize = find_class(s, Class::Is('?'), 0);
    if q1 >= s.len() {
        return None;
    }
    let q2: usize = find_class(s, Class::Is('?'), q1 + 1);
    if q2 >= s.len() {
        return None;
    }
    proof {
        reveal_strlit("?=");
    }
    match find_text(s, "?=", q2 + 1) {
        Some(q3) => Some(q3 + 2),
        None => None,
    }
}

/// The text of an encoded word without its opening `=?`.
pub fn decode_encoded_word(inner: &[char]) -> (r: Option<Vec<char>>)
    ensures
        match r {
            Some(t) => word_text(inner@) == Some(t@),
            None => word_text(inner@) is None,
        },
{
    let (charset, rest) = match cut(inner, '?') {
        Some(p) => p,
        None => {
            return None;
        },
    };
    let (enc, text) = match cut(rest, '?') {
        Some(p) => p,
        None => {
            return None;
        },
    };
    let n: usize = text.len();
    let text: &[char] = if n >= 2 && text[n - 2] == '?' && text[n - 1] == '=' {
        slice_subrange(text, 0, n - 2)
    } else {
        text
    };
    let encoded: String = string_of(text);
    let raw: Vec<u8> = if enc.len() == 1 && (enc[0] == 'B' || enc[0] == 'b') {
        decode_base64_bytes(encoded.as_str().as_bytes())
    } else if enc.len() == 1 && (enc[0] == 'Q' || enc[0] == 'q') {
        decode_qp_word(encoded.as_str().as_bytes())
    } else {
        return None;
    };
    match classify_charset(charset) {
        Some(c) => Some(decode_in(c, raw.as_slice())),
        None => None,
    }
}

/// The encoded word at `i`.
pub fn decode_word_at(s: &[char], i: usize) -> (r: Option<(Vec<char>, usize)>)
    requires
        i <= s@.len(),
    ensures
        match r {
            Some((t, e)) => word_at(s@, i as int) == Some((t@, e as int)) && i < e <= s@.len(),
            None => word_at(s@, i as int) is None,
        },
{
    if s.len() - i < 2 || s[i] != '=' || s[i + 1] != '?' {
        return None;
    }
    let rest: &[char] = slice_subrange(s, i + 2, s.len());
    match find_encoded_word_end(rest) {
        Some(n) => match decode_encoded_word(slice_subrange(rest, 0, n)) {
            Some(t) => Some((t, i + 2 + n)),
            None => None,
        },
        None => None,
    }
}

/// Decodes the encoded words in a header value.
pub fn decode_mime_header(value: &[char]) -> (r: Vec<char>)
    ensures
        r@ == header_text(value@),
{
    let mut out: Vec<char> = Vec::new();
    let mut i: usize = 0;
    let mut after: bool = false;
    while i < value.len()
        invariant
            i <= value@.len(),
            header_text(value@) =~= out@ + header_text_from(value@, i as int, after),
        decreases value.len() - i,
    {
        if let Some((t, e)) = decode_word_at(value, i) {
            push_all(&mut out, t.as_slice());
            i = e;
            after = true;
            continue ;
        }
        if after {
            let j: usize = find_class(value, Class::Ink, i);
            if i < j && decode_word_at(value, j).is_some() {
                i = j;
                continue ;
            }
        }
        out.push(value[i]);
        i += 1;
        after = false;
    }
    out
}

// ───────────────────────── laws ─────────────────────────

/// A header value without `=?` is its own text.
pub proof fn header_text_plain(s: Seq<char>)
    requires
        forall|i: int| 0 <= i < s.len() - 1 ==> !(#[trigger] s[i] == '=' && s[i + 1] == '?'),
    ensures
        header_text(s) == s,
{
    lemma_header_text_plain(s, 0);
    assert(s.subrange(0, s.len() as int) =~= s);
}

proof fn lemma_header_text_plain(s: Seq<char>, i: int)
    requires
        0 <= i <= s.len(),
        forall|k: int| 0 <= k < s.len() - 1 ==> !(#[trigger] s[k] == '=' && s[k + 1] == '?'),
    ensures
        header_text_from(s, i, false) == s.subrange(i, s.len() as int),
    decreases s.len() - i,
{
    if i < s.len() {
        lemma_header_text_plain(s, i + 1);
        assert(word_at(s, i) is None);
        assert(s.subrange(i, s.len() as int) =~= seq![s[i]] + s.subrange(i + 1, s.len() as int));
    } else {
        assert(s.subrange(i, s.len() as int) =~= seq![]);
    }
}

/// An encoded word in UTF-8, with the encoding `enc` and its text.
pub open spec fn utf8_word(enc: char, text: Seq<char>) -> Seq<char> {
    "=?utf-8?"@ + seq![enc, '?'] + text + "?="@
}

/// A text as an encoded word, in base64 or in the Q encoding.
pub open spec fn encoded_word(t: Seq<char>, base64: bool) -> Seq<char> {
    if base64 {
        utf8_word('B', latin1(base64_written(encode_utf8(t))))
    } else {
        utf8_word('Q', latin1(quoted(encode_utf8(t))))
    }
}

/// The label `utf-8`, in any case, stands for UTF-8.
pub proof fn lemma_utf8_label(label: Seq<char>)
    requires
        ascii_lower(label) == "utf-8"@,
    ensures
        charset_of(label) == Some(Charset::Utf8),
{
    reveal_strlit("utf-8");
    let l = "utf-8"@;
    lemma_trimmed_is(l, 0, 5);
    assert(l.subrange(0, 5) =~= l);
    lemma_next_is(l, Class::NonQuote, 0, 0);
    lemma_end_of_is(l, Class::NonQuote, 5);
}

/// The bytes of an encoded word are those of its text.
proof fn lemma_word_bytes(enc: char, b: Seq<u8>, t: Seq<char>)
    requires
        forall|i: int| 0 <= i < b.len() ==> word_byte(#[trigger] b[i]),
        enc == 'B' && base64_bytes(b) == encode_utf8(t) || enc == 'Q' && q_word(b) == encode_utf8(t),
    ensures
        word_bytes(seq![enc], latin1(b)) == Some(encode_utf8(t)),
        forall|i: int| 0 <= i < latin1(b).len() ==> #[trigger] latin1(b)[i] != '?',
{
    let x = latin1(b);
    assert forall|i: int| 0 <= i < x.len() implies '\0' <= #[trigger] x[i] <= '\u{7f}' && x[i]
        != '?' by {
        assert(word_byte(b[i]));
    }
    assert(is_ascii_chars(x));
    is_ascii_chars_encode_utf8(x);
    assert(encode_utf8(x) =~= b);
}

/// An encoded word is found wherever it stands.
proof fn lemma_word_stands(p: Seq<char>, enc: char, x: Seq<char>, q: Seq<char>, t: Seq<char>)
    requires
        enc == 'B' || enc == 'Q',
        word_bytes(seq![enc], x) == Some(encode_utf8(t)),
        forall|i: int| 0 <= i < x.len() ==> #[trigger] x[i] != '?',
    ensures
        ({
            let w = utf8_word(enc, x);
            word_at(p + w + q, p.len() as int) == Some((t, (p.len() + w.len()) as int))
        }),
{
    reveal_strlit("=?utf-8?");
    reveal_strlit("utf-8");
    reveal_strlit("?=");
    let w = utf8_word(enc, x);
    let s = p + w + q;
    let n = p.len() as int;
    let rest = s.subrange(n + 2, s.len() as int);
    let m = x.len() as int;
    assert(w =~= seq!['=', '?'] + "utf-8"@ + seq!['?', enc, '?'] + x + seq!['?', '=']);
    assert(s[n] == w[0] && s[n + 1] == w[1]);
    assert(rest =~= "utf-8"@ + seq!['?', enc, '?'] + x + seq!['?', '='] + q);
    assert(rest[5] == '?' && rest[6] == enc && rest[7] == '?');
    lemma_next_is(rest, Class::Is('?'), 0, 5);
    lemma_next_is(rest, Class::Is('?'), 6, 7);
    assert(rest.subrange(8 + m, 8 + m + 2) =~= "?="@);
    assert forall|j: int| 8 <= j < 8 + m implies !occurs(rest, "?="@, j) by {
        assert(rest[j] == x[j - 8]);
        if occurs(rest, "?="@, j) {
            assert(rest.subrange(j, j + 2)[0] == rest[j]);
        }
    }
    lemma_found_at(rest, "?="@, 8, 8 + m);
    let inner = rest.subrange(0, 10 + m);
    let after = seq![enc, '?'] + x + seq!['?', '='];
    let body = x + seq!['?', '='];
    assert(inner =~= "utf-8"@ + seq!['?'] + after);
    lemma_next_is(inner, Class::Is('?'), 0, 5);
    assert(inner.subrange(0, 5) =~= "utf-8"@);
    assert(inner.subrange(6, inner.len() as int) =~= after);
    lemma_next_is(after, Class::Is('?'), 0, 1);
    assert(after.subrange(0, 1) =~= seq![enc]);
    assert(after.subrange(2, after.len() as int) =~= body);
    assert(without_closing(body) =~= x);
    assert(ascii_lower("utf-8"@) =~= "utf-8"@);
    lemma_utf8_label("utf-8"@);
    encode_utf8_valid_utf8(t);
    encode_utf8_decode_utf8(t);
    assert(word_text(inner) == Some(t));
}

proof fn lemma_encoded_word(p: Seq<char>, t: Seq<char>, base64: bool, q: Seq<char>)
    ensures
        ({
            let w = encoded_word(t, base64);
            word_at(p + w + q, p.len() as int) == Some((t, (p.len() + w.len()) as int))
        }),
{
    let b = encode_utf8(t);
    if base64 {
        lemma_base64_bytes(b);
        base64_round_trip(b, base64_written(b));
        lemma_word_bytes('B', base64_written(b), t);
        lemma_word_stands(p, 'B', latin1(base64_written(b)), q, t);
    } else {
        lemma_quoted_bytes(b);
        quoted_round_trip(b);
        lemma_word_bytes('Q', quoted(b), t);
        lemma_word_stands(p, 'Q', latin1(quoted(b)), q, t);
    }
}

/// Any text can be sent in a header: as an encoded word, of either kind, it is read as it was.
pub proof fn an_encoded_word_is_read(t: Seq<char>, base64: bool)
    ensures
        header_text(encoded_word(t, base64)) == t,
{
    let w = encoded_word(t, base64);
    let none = Seq::<char>::empty();
    lemma_encoded_word(none, t, base64, none);
    assert(none + w + none =~= w);
    lemma_word_at(w, 0);
    assert(header_text_from(w, w.len() as int, true) =~= none);
    assert(t + none =~= t);
}

/// A long text can be sent in several encoded words: the white space between two of them is no
/// part of the text.
pub proof fn adjacent_words_are_joined(
    first: Seq<char>,
    base64: bool,
    space: Seq<char>,
    second: Seq<char>,
    base64_too: bool,
)
    requires
        space.len() > 0,
        blank(space),
    ensures
        header_text(encoded_word(first, base64) + space + encoded_word(second, base64_too))
            == first + second,
{
    let a = encoded_word(first, base64);
    let b = encoded_word(second, base64_too);
    let none = Seq::<char>::empty();
    let s = a + space + b;
    lemma_encoded_word(none, first, base64, space + b);
    assert(none + a + (space + b) =~= s);
    lemma_encoded_word(a + space, second, base64_too, none);
    assert(a + space + b + none =~= s);
    let e = a.len() as int;
    let j = e + space.len();
    lemma_word_at(s, 0);
    lemma_word_at(s, j);
    assert forall|i: int| e <= i < j implies !Class::Ink.admits(#[trigger] s[i]) by {
        assert(s[i] == space[i - e]);
    }
    assert(s[j] == b[0]);
    assert(s[j] == '=');
    lemma_next_is(s, Class::Ink, e, j);
    assert(s[e] == space[0]);
    assert(word_at(s, e) is None);
    assert(header_text_from(s, s.len() as int, true) =~= none);
    assert(header_text_from(s, j, true) =~= second);
    assert(header_text_from(s, e, true) == header_text_from(s, j, true));
}

} // verus!
