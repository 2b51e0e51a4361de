//! Encoded words in any character set, and where they stand.
use vstd::prelude::*;
use vstd::utf8::encode_utf8;

use crate::lines::lemma_split_once;
use crate::mail::charset::{charset_of, text_in, Charset};
use crate::mail::transfer::{base64_bytes, q_word};
use crate::mail::words::{
    header_text, header_text_from, lemma_word_at, without_closing, word_at, word_len, word_text,
};
use crate::text::{lemma_found_at, lemma_next_is, next, occurs, Class};

verus! {

/// An encoded word, with what names its character set, the letter of its encoding and its text.
pub open spec fn written_word(label: Seq<char>, enc: char, text: Seq<char>) -> Seq<char> {
    seq!['=', '?'] + label + seq!['?', enc, '?'] + text + seq!['?', '=']
}

/// The bytes that a word in that encoding writes.
pub open spec fn bytes_in_word(enc: char, text: Seq<char>) -> Seq<u8> {
    if enc == 'B' || enc == 'b' {
        base64_bytes(encode_utf8(text))
    } else {
        q_word(encode_utf8(text))
    }
}

/// What an encoded word holds between its ends.
proof fn lemma_inner(p: Seq<char>, label: Seq<char>, enc: char, x: Seq<char>, q: Seq<char>)
    requires
        !label.contains('?'),
        enc != '?',
        !x.contains('?'),
    ensures
        ({
            let w = written_word(label, enc, x);
            let s = p + w + q;
            let i = p.len() as int;
            let rest = s.subrange(i + 2, s.len() as int);
            let inner = label + seq!['?', enc, '?'] + x + seq!['?', '='];
            &&& s[i] == '=' && s[i + 1] == '?'
            &&& word_len(rest) == Some(w.len() - 2)
            &&& rest.subrange(0, w.len() - 2) == inner
            &&& word_at(s, i) == (match word_text(inner) {
                Some(t) => Some((t, i + w.len())),
                None => None,
            })
        }),
{
    reveal_strlit("?=");
    let w = written_word(label, enc, x);
    let s = p + w + q;
    let i = p.len() as int;
    let rest = s.subrange(i + 2, s.len() as int);
    let inner = label + seq!['?', enc, '?'] + x + seq!['?', '='];
    let n = label.len() as int;
    let m = x.len() as int;
    assert(s[i] == w[0] && s[i + 1] == w[1]);
    assert(rest =~= inner + q);
    assert forall|j: int| 0 <= j < n implies !Class::Is('?').admits(#[trigger] rest[j]) by {
        assert(rest[j] == label[j]);
        assert(label.contains(label[j]));
    }
    assert(rest[n] == '?' && rest[n + 1] == enc && rest[n + 2] == '?');
    lemma_next_is(rest, Class::Is('?'), 0, n);
    lemma_next_is(rest, Class::Is('?'), n + 1, n + 2);
    let e = n + 3 + m;
    assert(rest.subrange(e, e + 2) =~= "?="@);
    assert forall|j: int| n + 3 <= j < e implies !occurs(rest, "?="@, j) by {
        assert(rest[j] == x[j - n - 3]);
        assert(x.contains(x[j - n - 3]));
        if occurs(rest, "?="@, j) {
            assert(rest.subrange(j, j + 2)[0] == rest[j]);
        }
    }
    assert(occurs(rest, "?="@, e));
    lemma_found_at(rest, "?="@, n + 3, e);
    assert(rest.subrange(0, e + 2) =~= inner);
    assert(w.len() == e + 4);
}

proof fn lemma_word_text(label: Seq<char>, enc: char, x: Seq<char>)
    requires
        !label.contains('?'),
        enc != '?',
    ensures
        word_text(label + seq!['?', enc, '?'] + x + seq!['?', '=']) == (match charset_of(label) {
            Some(c) => if enc == 'B' || enc == 'b' || enc == 'Q' || enc == 'q' {
                Some(text_in(c, bytes_in_word(enc, x)))
            } else {
                None
            },
            None => None,
        }),
{
    let inner = label + seq!['?', enc, '?'] + x + seq!['?', '='];
    let body = x + seq!['?', '='];
    let after = seq![enc] + seq!['?'] + body;
    assert(inner =~= label + seq!['?'] + after);
    lemma_split_once(label, '?', after);
    assert(!seq![enc].contains('?'));
    lemma_split_once(seq![enc], '?', body);
    assert(without_closing(body) =~= x);
}

proof fn lemma_plain_before(s: Seq<char>, i: int, e: int)
    requires
        0 <= i <= e <= s.len(),
        forall|k: int| i <= k < e ==> #[trigger] s[k] != '=',
    ensures
        header_text_from(s, i, false) == s.subrange(i, e) + header_text_from(s, e, false),
    decreases e - i,
{
    if i < e {
        lemma_plain_before(s, i + 1, e);
        assert(word_at(s, i) is None);
        assert(seq![s[i]] + (s.subrange(i + 1, e) + header_text_from(s, e, false)) =~= s.subrange(
            i,
            e,
        ) + header_text_from(s, e, false));
    } else {
        assert(s.subrange(i, e) =~= seq![]);
        assert(Seq::<char>::empty() + header_text_from(s, e, false) =~= header_text_from(
            s,
            e,
            false,
        ));
    }
}

/// What follows a word, and holds no other, is kept as it is, white space and all.
proof fn lemma_plain_after(s: Seq<char>, i: int, after: bool)
    requires
        0 <= i <= s.len(),
        forall|k: int| i <= k < s.len() ==> #[trigger] s[k] != '=',
    ensures
        header_text_from(s, i, after) == s.subrange(i, s.len() as int),
    decreases s.len() - i,
{
    if i < s.len() {
        crate::text::lemma_next(s, Class::Ink, i);
        let j = next(s, Class::Ink, i);
        assert(word_at(s, i) is None);
        assert(word_at(s, j) is None);
        lemma_plain_after(s, i + 1, false);
        assert(s.subrange(i, s.len() as int) =~= seq![s[i]] + s.subrange(i + 1, s.len() as int));
    } else {
        assert(s.subrange(i, s.len() as int) =~= seq![]);
    }
}

/// An encoded word is read wherever it stands in a header value, in every character set and in both
/// encodings, whose letters may be of either case; and what stands around it is kept.
pub proof fn words_are_read_where_they_stand(
    before: Seq<char>,
    label: Seq<char>,
    c: Charset,
    enc: char,
    text: Seq<char>,
    after: Seq<char>,
)
    requires
        !before.contains('='),
        !after.contains('='),
        !label.contains('?'),
        charset_of(label) == Some(c),
        enc == 'B' || enc == 'b' || enc == 'Q' || enc == 'q',
        !text.contains('?'),
    ensures
        header_text(before + written_word(label, enc, text) + after) == before + text_in(
            c,
            bytes_in_word(enc, text),
        ) + after,
{
    let w = written_word(label, enc, text);
    let s = before + w + after;
    let n = before.len() as int;
    let e = n + w.len();
    let t = text_in(c, bytes_in_word(enc, text));
    lemma_inner(before, label, enc, text, after);
    lemma_word_text(label, enc, text);
    lemma_word_at(s, n);
    assert forall|k: int| 0 <= k < n implies #[trigger] s[k] != '=' by {
        assert(s[k] == before[k]);
        assert(before.contains(before[k]));
    }
    lemma_plain_before(s, 0, n);
    assert forall|k: int| e <= k < s.len() implies #[trigger] s[k] != '=' by {
        assert(s[k] == after[k - e]);
        assert(after.contains(after[k - e]));
    }
    lemma_plain_after(s, e, true);
    assert(s.subrange(0, n) =~= before);
    assert(s.subrange(e, s.len() as int) =~= after);
    assert(header_text_from(s, n, false) == t + after);
    assert(before + (t + after) =~= before + t + after);
}

/// A word in a character set or an encoding that is not known stays as it is written.
pub proof fn unknown_words_stay(
    before: Seq<char>,
    label: Seq<char>,
    enc: char,
    text: Seq<char>,
    after: Seq<char>,
)
    requires
        !before.contains('='),
        !after.contains('='),
        !label.contains('?'),
        !label.contains('='),
        charset_of(label) is None || !(enc == 'B' || enc == 'b' || enc == 'Q' || enc == 'q'),
        enc != '?',
        enc != '=',
        !text.contains('?'),
        !text.contains('='),
        after.len() > 0 ==> after[0] != '?',
    ensures
        header_text(before + written_word(label, enc, text) + after) == before + written_word(
            label,
            enc,
            text,
        ) + after,
{
    let w = written_word(label, enc, text);
    let s = before + w + after;
    let n = before.len() as int;
    let e = n + w.len();
    lemma_inner(before, label, enc, text, after);
    lemma_word_text(label, enc, text);
    assert(word_at(s, n) is None);
    assert forall|k: int| 0 <= k < n implies #[trigger] s[k] != '=' by {
        assert(s[k] == before[k]);
        assert(before.contains(before[k]));
    }
    lemma_plain_before(s, 0, n);
    assert forall|k: int| n < k < e - 1 implies #[trigger] s[k] != '=' by {
        assert(s[k] == w[k - n]);
        let l = label.len() as int;
        if 2 <= k - n < 2 + l {
            assert(w[k - n] == label[k - n - 2]);
            assert(label.contains(label[k - n - 2]));
        } else if 5 + l <= k - n < w.len() - 2 {
            assert(w[k - n] == text[k - n - 5 - l]);
            assert(text.contains(text[k - n - 5 - l]));
        }
    }
    lemma_plain_before(s, n + 1, e - 1);
    assert forall|k: int| e <= k < s.len() implies #[trigger] s[k] != '=' by {
        assert(s[k] == after[k - e]);
        assert(after.contains(after[k - e]));
    }
    lemma_plain_after(s, e, false);
    if e < s.len() {
        assert(s[e] == after[0]);
    }
    assert(word_at(s, e - 1) is None);
    assert(header_text_from(s, e - 1, false) == seq![s[e - 1]] + header_text_from(s, e, false));
    assert(header_text_from(s, n, false) == seq![s[n]] + header_text_from(s, n + 1, false));
    assert(s.subrange(0, n) + (seq![s[n]] + (s.subrange(n + 1, e - 1) + (seq![s[e - 1]]
        + s.subrange(e, s.len() as int)))) =~= s);
}

} // verus!
