//! The plainest of mails: a subject, a sender and a text, and what is read of it.
use vstd::prelude::*;
use vstd::utf8::{
    encode_utf8, encode_utf8_decode_utf8, encode_utf8_valid_utf8, is_ascii_chars,
};

use crate::lines::{
    joined, lemma_encode_concat, lemma_no_byte, pieces, split_after_join, split_once, without_cr,
};
use crate::mail::charset::gbk_text;
use crate::mail::message::{mail_of, shown, Found, MailView};
use crate::mail::mime::{
    empty_line_at, field_from, head_and_body, header_fields, header_flush, header_fold, header_step,
    lemma_no_empty_line, param_place, HeaderState,
};
use crate::mail::words::header_text;
use crate::text::{
    ascii_lower, found, is_space, lemma_next_is, lemma_trimmed_is, occurs, trimmed,
    trimmed_start, Class,
};
use crate::unicode::{lossy_text, lower_case};

verus! {

/// A line of a header.
pub open spec fn header_line(name: Seq<char>, value: Seq<char>) -> Seq<char> {
    name + ": "@ + value
}

/// A mail with a subject, a sender and a body.
pub open spec fn plain_mail(subject: Seq<char>, from: Seq<char>, body: Seq<u8>) -> Seq<u8> {
    encode_utf8(
        header_line("Subject"@, subject) + "\r\n"@ + header_line("From"@, from),
    ) + seq![13u8, 10u8, 13u8, 10u8] + body
}

/// A value that can stand on one line: it holds something, no line end, and no white space
/// around it.
pub open spec fn line_value(s: Seq<char>) -> bool {
    &&& s.len() > 0
    &&& !is_space(s[0])
    &&& !is_space(s[s.len() - 1])
    &&& !s.contains('\r')
    &&& !s.contains('\n')
}

// ───────────────────────── bytes ─────────────────────────

/// A line end takes its two bytes.
pub proof fn lemma_line_end_bytes()
    ensures
        encode_utf8("\r\n"@) == seq![13u8, 10u8],
{
    reveal_strlit("\r\n");
    let s = "\r\n"@;
    assert(s =~= seq!['\r', '\n']);
    assert((13u32 & 0x7f) as u8 == 13) by (bit_vector);
    assert((10u32 & 0x7f) as u8 == 10) by (bit_vector);
    assert(s.drop_first() =~= seq!['\n']);
    assert(s.drop_first().drop_first() =~= seq![]);
    reveal_with_fuel(encode_utf8, 3);
    assert(encode_utf8(s) =~= seq![13u8, 10u8]);
}

/// The head of the mail ends at its empty line.
proof fn lemma_head(a: Seq<char>, b: Seq<char>, body: Seq<u8>)
    requires
        !a.contains('\r'),
        !a.contains('\n'),
        !b.contains('\r'),
        !b.contains('\n'),
        b.len() > 0,
    ensures
        ({
            let head = encode_utf8(a + "\r\n"@ + b);
            head_and_body(head + seq![13u8, 10u8, 13u8, 10u8] + body) == (head, body)
        }),
{
    let end = seq![13u8, 10u8, 13u8, 10u8];
    let lf = seq![10u8, 10u8];
    let x = encode_utf8(a);
    let y = encode_utf8(b);
    let head = encode_utf8(a + "\r\n"@ + b);
    let raw = head + end + body;
    lemma_encode_concat(a, "\r\n"@);
    lemma_encode_concat(a + "\r\n"@, b);
    lemma_line_end_bytes();
    lemma_no_byte(a, '\r');
    lemma_no_byte(b, '\r');
    lemma_no_byte(a, '\n');
    lemma_no_byte(b, '\n');
    let p = x.len() as int;
    let n = head.len() as int;
    assert(y.len() > 0);
    assert(head =~= x + seq![13u8, 10u8] + y);
    assert forall|j: int| 0 <= j < n implies (#[trigger] empty_line_at(raw, j)) is None by {
        assert(raw[j] == head[j]);
        if occurs(raw, end, j) {
            let t = raw.subrange(j, j + 4);
            assert(t[0] == 13 && t[2] == 13);
            if j < p {
                assert(head[j] == x[j]);
            } else if j == p {
                assert(raw[p + 2] == y[0]);
            } else if j == p + 1 {
                assert(head[j] == 10);
            } else {
                assert(head[j] == y[j - p - 2]);
            }
        }
        if occurs(raw, lf, j) {
            let t = raw.subrange(j, j + 2);
            assert(t[0] == 10 && t[1] == 10);
            if j < p {
                assert(head[j] == x[j]);
            } else if j == p + 1 {
                assert(raw[p + 2] == y[0]);
            } else if j > p + 1 {
                assert(head[j] == y[j - p - 2]);
            }
        }
    }
    assert(raw.subrange(n, n + 4) =~= end);
    lemma_no_empty_line(raw, 0, n);
    assert(raw.subrange(0, n) =~= head);
    assert(raw.subrange(n + 4, raw.len() as int) =~= body);
}

// ───────────────────────── header lines ─────────────────────────

/// A name that can stand before the colon of a header line: ASCII letters and hyphens.
pub open spec fn header_name(name: Seq<char>) -> bool {
    &&& name.len() > 0
    &&& forall|i: int|
        0 <= i < name.len() ==> {
            let c = #[trigger] name[i];
            'a' <= c <= 'z' || 'A' <= c <= 'Z' || c == '-'
        }
}

/// What one header line adds: its name in small letters, and its value.
pub proof fn lemma_header_step(st: HeaderState, name: Seq<char>, value: Seq<char>, raw: Seq<char>)
    requires
        header_name(name),
        line_value(value),
        without_cr(raw) == header_line(name, value),
        header_flush(st).value.len() == 0,
    ensures
        header_step(st, raw) == (HeaderState {
            name: Some(ascii_lower(name)),
            value,
            ..header_flush(st)
        }),
{
    let line = header_line(name, value);
    let k = name.len() as int;
    reveal_strlit(": ");
    assert(": "@ =~= seq![':', ' ']);
    assert(line[0] == name[0]);
    assert forall|i: int| 0 <= i < k implies !Class::Is(':').admits(#[trigger] line[i]) by {
        assert(line[i] == name[i]);
    }
    assert(line[k] == ':');
    lemma_next_is(line, Class::Is(':'), 0, k);
    assert(line.subrange(0, k) =~= name);
    let v = line.subrange(k + 1, line.len() as int);
    assert(v =~= seq![' '] + value);
    assert(split_once(line, ':') == Some((name, v)));
    assert(!is_space(name[0]) && !is_space(name[k - 1]));
    lemma_trimmed_is(name, 0, k);
    assert(name.subrange(0, k) =~= name);
    assert(v[1] == value[0]);
    assert(v[v.len() - 1] == value[value.len() - 1]);
    lemma_trimmed_is(v, 1, v.len() as int);
    assert(v.subrange(1, v.len() as int) =~= value);
    assert(header_flush(st).value + trimmed_start(v) =~= value);
    assert(is_ascii_chars(name));
}

/// The fields of the header.
proof fn lemma_fields(subject: Seq<char>, from: Seq<char>)
    requires
        line_value(subject),
        line_value(from),
    ensures
        header_fields(
            encode_utf8(header_line("Subject"@, subject) + "\r\n"@ + header_line("From"@, from)),
        ) == seq![("subject"@, subject), ("from"@, from)],
{
    let a = header_line("Subject"@, subject);
    let b = header_line("From"@, from);
    let text = a + "\r\n"@ + b;
    encode_utf8_valid_utf8(text);
    encode_utf8_decode_utf8(text);
    assert(lossy_text(encode_utf8(text)) == text);
    reveal_strlit("Subject");
    reveal_strlit("From");
    reveal_strlit("subject");
    reveal_strlit("from");
    reveal_strlit(": ");
    reveal_strlit("\r\n");
    lemma_line_holds("Subject"@, subject);
    lemma_line_holds("From"@, from);
    let first = a.push('\r');
    let parts = seq![first, b];
    assert(parts.drop_last() =~= seq![first]);
    assert(joined(parts.drop_last(), seq!['\n']) == first);
    assert(joined(parts, seq!['\n']) =~= text);
    assert forall|i: int| 0 <= i < parts.len() implies !(#[trigger] parts[i]).contains('\n') by {
        if i == 0 {
            assert forall|j: int| 0 <= j < first.len() implies #[trigger] first[j] != '\n' by {
                if j < a.len() {
                    assert(first[j] == a[j]);
                    assert(a.contains(a[j]));
                }
            }
        }
    }
    split_after_join(parts, '\n');
    assert(pieces(text, '\n') == parts);
    let empty = HeaderState { done: seq![], name: None, value: seq![] };
    assert(without_cr(first) =~= a);
    assert(b[b.len() - 1] == from[from.len() - 1]);
    assert(is_space('\r'));
    assert(without_cr(b) =~= b);
    lemma_header_step(empty, "Subject"@, subject, first);
    let one = header_step(empty, first);
    lemma_header_step(one, "From"@, from, b);
    let two = header_step(one, b);
    assert(ascii_lower("Subject"@) =~= "subject"@);
    assert(ascii_lower("From"@) =~= "from"@);
    reveal_with_fuel(header_fold, 3);
    assert(parts.drop_last().drop_last() =~= seq![]);
    assert(header_fold(parts) == two);
    assert(header_flush(two).done =~= seq![("subject"@, subject), ("from"@, from)]);
}

/// A header line holds no line end.
pub proof fn lemma_line_holds(name: Seq<char>, value: Seq<char>)
    requires
        header_name(name),
        line_value(value),
    ensures
        !header_line(name, value).contains('\r'),
        !header_line(name, value).contains('\n'),
{
    reveal_strlit(": ");
    let line = header_line(name, value);
    let k = name.len() as int;
    assert forall|j: int| 0 <= j < line.len() implies #[trigger] line[j] != '\r' && line[j]
        != '\n' by {
        if j < k {
            assert(line[j] == name[j]);
        } else if j >= k + 2 {
            assert(line[j] == value[j - k - 2]);
            assert(value.contains(value[j - k - 2]));
        }
    }
}

// ───────────────────────── laws ─────────────────────────

/// A plain mail is read as it was written: its subject and its sender, with the encoded words in
/// them decoded, and its text, made clean.
pub proof fn a_plain_mail_is_read(subject: Seq<char>, from: Seq<char>, body: Seq<u8>)
    requires
        line_value(subject),
        line_value(from),
    ensures
        mail_of(plain_mail(subject, from, body)) == (MailView {
            subject: header_text(subject),
            from: header_text(from),
            body: shown((Found { text: Some(gbk_text(body)), html: None, other: None })),
        }),
{
    let a = header_line("Subject"@, subject);
    let b = header_line("From"@, from);
    reveal_strlit("Subject");
    reveal_strlit("From");
    lemma_line_holds("Subject"@, subject);
    lemma_line_holds("From"@, from);
    lemma_head(a, b, body);
    lemma_fields(subject, from);
    let h = seq![("subject"@, subject), ("from"@, from)];
    reveal_strlit("subject");
    reveal_strlit("from");
    reveal_strlit("content-type");
    reveal_strlit("content-transfer-encoding");
    reveal_strlit("boundary");
    reveal_strlit("charset");
    reveal_strlit("text/html");
    reveal_strlit("base64");
    reveal_strlit("quoted-printable");
    reveal_with_fuel(field_from, 3);
    assert("subject"@.len() == 7 && "from"@.len() == 4 && "content-type"@.len() == 12
        && "content-transfer-encoding"@.len() == 25);
    lemma_trimmed_is(subject, 0, subject.len() as int);
    lemma_trimmed_is(from, 0, from.len() as int);
    assert(subject.subrange(0, subject.len() as int) =~= subject);
    assert(from.subrange(0, from.len() as int) =~= from);
    let none = Seq::<char>::empty();
    assert(lower_case(none) =~= none);
    assert(trimmed(none) =~= none);
    assert(found(none, "boundary"@.push('='), 0) is None);
    assert(param_place(none, "boundary"@.push('='), 0) is None);
    assert(found(none, "charset"@.push('='), 0) is None);
    assert(param_place(none, "charset"@.push('='), 0) is None);
}

} // verus!
