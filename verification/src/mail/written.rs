//! Mails as they are written, and what is read of them: header fields, transfer encodings, and
//! parts.
use vstd::prelude::*;
use vstd::utf8::{encode_utf8, encode_utf8_decode_utf8, encode_utf8_valid_utf8, is_ascii_chars};

use crate::lines::{
    joined, lemma_encode_concat, lemma_no_byte, lemma_pieces, lemma_split_once, pieces,
    split_after_join, without_cr,
};
use crate::mail::mime::{
    empty_line_at, field, field_from, field_or_empty, head_and_body, header_fields, header_flush,
    header_fold, header_step, lemma_no_empty_line, HeaderState,
};
use crate::mail::plain::{
    header_line, header_name, lemma_header_step, lemma_line_end_bytes, lemma_line_holds, line_value,
};
use crate::text::{ascii_lower, is_space, lemma_next_is, occurs, Class};
use crate::unicode::{lossy_text, lower_case};

verus! {

// ───────────────────────── header fields ─────────────────────────

/// Fields that can be written on a line each.
pub open spec fn proper_fields(fields: Seq<(Seq<char>, Seq<char>)>) -> bool {
    &&& fields.len() > 0
    &&& forall|i: int|
        0 <= i < fields.len() ==> header_name((#[trigger] fields[i]).0) && line_value(fields[i].1)
}

/// The lines that write the fields.
pub open spec fn field_lines(fields: Seq<(Seq<char>, Seq<char>)>) -> Seq<Seq<char>> {
    Seq::new(fields.len(), |i: int| header_line(fields[i].0, fields[i].1))
}

/// A header with these fields.
pub open spec fn written_head(fields: Seq<(Seq<char>, Seq<char>)>) -> Seq<char> {
    joined(field_lines(fields), "\r\n"@)
}

/// A mail, or a part of one, with this header and this body.
pub open spec fn written_mail(fields: Seq<(Seq<char>, Seq<char>)>, body: Seq<u8>) -> Seq<u8> {
    encode_utf8(written_head(fields)) + seq![13u8, 10u8, 13u8, 10u8] + body
}

/// The fields as they are read: their names in small letters.
pub open spec fn read_fields(fields: Seq<(Seq<char>, Seq<char>)>) -> Seq<(Seq<char>, Seq<char>)> {
    Seq::new(fields.len(), |i: int| (ascii_lower(fields[i].0), fields[i].1))
}

/// The lines with a carriage return at the end of each.
pub open spec fn with_returns(lines: Seq<Seq<char>>) -> Seq<Seq<char>> {
    Seq::new(lines.len(), |i: int| lines[i].push('\r'))
}

proof fn lemma_returns(lines: Seq<Seq<char>>)
    requires
        lines.len() > 0,
    ensures
        joined(with_returns(lines), seq!['\n']) == joined(lines, "\r\n"@).push('\r'),
    decreases lines.len(),
{
    reveal_strlit("\r\n");
    let w = with_returns(lines);
    if lines.len() > 1 {
        let front = lines.drop_last();
        lemma_returns(front);
        assert(w.drop_last() =~= with_returns(front));
        assert(joined(w, seq!['\n']) =~= joined(lines, "\r\n"@).push('\r'));
    }
}

/// The pieces of a header between newlines: its lines, with a carriage return at the end of each
/// but the last.
proof fn lemma_head_pieces(lines: Seq<Seq<char>>)
    requires
        lines.len() > 0,
        forall|i: int| 0 <= i < lines.len() ==> !(#[trigger] lines[i]).contains('\n'),
    ensures
        pieces(joined(lines, "\r\n"@), '\n') == with_returns(lines.drop_last()).push(lines.last()),
{
    reveal_strlit("\r\n");
    let front = lines.drop_last();
    let parts = with_returns(front).push(lines.last());
    assert(parts.drop_last() =~= with_returns(front));
    if lines.len() > 1 {
        lemma_returns(front);
        assert(joined(parts, seq!['\n']) =~= joined(lines, "\r\n"@));
    } else {
        assert(parts =~= lines);
    }
    assert forall|i: int| 0 <= i < parts.len() implies !(#[trigger] parts[i]).contains('\n') by {
        if i < front.len() {
            let l = lines[i];
            let p = parts[i];
            assert(p == l.push('\r'));
            assert forall|j: int| 0 <= j < p.len() implies #[trigger] p[j] != '\n' by {
                if j < l.len() {
                    assert(l.contains(l[j]));
                }
            }
        } else {
            assert(parts[i] == lines[lines.len() - 1]);
        }
    }
    split_after_join(parts, '\n');
}

/// The state after the first `k` lines of a header.
proof fn lemma_fold(fields: Seq<(Seq<char>, Seq<char>)>, parts: Seq<Seq<char>>, k: int)
    requires
        proper_fields(fields),
        parts.len() == fields.len(),
        forall|i: int|
            0 <= i < parts.len() ==> without_cr(#[trigger] parts[i]) == header_line(
                fields[i].0,
                fields[i].1,
            ),
        0 <= k <= fields.len(),
    ensures
        header_flush(header_fold(parts.take(k))).done == read_fields(fields.take(k)),
        header_flush(header_fold(parts.take(k))).name is None,
        header_flush(header_fold(parts.take(k))).value.len() == 0,
    decreases k,
{
    if k == 0 {
        assert(parts.take(0) =~= seq![]);
        assert(read_fields(fields.take(0)) =~= seq![]);
    } else {
        lemma_fold(fields, parts, k - 1);
        let st = header_fold(parts.take(k - 1));
        assert(parts.take(k).drop_last() =~= parts.take(k - 1));
        assert(parts.take(k).last() == parts[k - 1]);
        lemma_header_step(st, fields[k - 1].0, fields[k - 1].1, parts[k - 1]);
        assert(read_fields(fields.take(k)) =~= read_fields(fields.take(k - 1)).push(
            (ascii_lower(fields[k - 1].0), fields[k - 1].1),
        ));
    }
}

proof fn lemma_field_lines(fields: Seq<(Seq<char>, Seq<char>)>)
    requires
        proper_fields(fields),
    ensures
        forall|i: int|
            0 <= i < fields.len() ==> {
                let l = #[trigger] field_lines(fields)[i];
                &&& l.len() > 0
                &&& !l.contains('\r')
                &&& !l.contains('\n')
                &&& without_cr(l) == l
                &&& without_cr(l.push('\r')) == l
            },
{
    reveal_strlit(": ");
    assert forall|i: int| 0 <= i < fields.len() implies {
        let l = #[trigger] field_lines(fields)[i];
        &&& l.len() > 0
        &&& !l.contains('\r')
        &&& !l.contains('\n')
        &&& without_cr(l) == l
        &&& without_cr(l.push('\r')) == l
    } by {
        let l = field_lines(fields)[i];
        assert(header_name(fields[i].0) && line_value(fields[i].1));
        lemma_line_holds(fields[i].0, fields[i].1);
        assert(l.contains(l[l.len() - 1]));
        assert(l.push('\r').drop_last() =~= l);
    }
}

/// The fields of a header are read as they were written, each under its name in small letters.
pub proof fn written_fields_are_read(fields: Seq<(Seq<char>, Seq<char>)>)
    requires
        proper_fields(fields),
    ensures
        header_fields(encode_utf8(written_head(fields))) == read_fields(fields),
{
    let lines = field_lines(fields);
    let text = written_head(fields);
    encode_utf8_valid_utf8(text);
    encode_utf8_decode_utf8(text);
    assert(lossy_text(encode_utf8(text)) == text);
    lemma_field_lines(fields);
    lemma_head_pieces(lines);
    let parts = with_returns(lines.drop_last()).push(lines.last());
    assert forall|i: int| 0 <= i < parts.len() implies without_cr(#[trigger] parts[i])
        == header_line(fields[i].0, fields[i].1) by {
        assert(lines[i] == header_line(fields[i].0, fields[i].1));
        if i < parts.len() - 1 {
            assert(parts[i] == lines[i].push('\r'));
        } else {
            assert(parts[i] == lines[i]);
        }
    }
    lemma_fold(fields, parts, parts.len() as int);
    assert(parts.take(parts.len() as int) =~= parts);
    assert(fields.take(fields.len() as int) =~= fields);
}

/// No empty line stands in these bytes, and none starts at their end.
spec fn dense_lines(h: Seq<u8>) -> bool {
    &&& h.len() > 0
    &&& forall|j: int|
        0 <= j < h.len() && #[trigger] h[j] == 13 ==> j + 1 < h.len() && h[j + 1] == 10
    &&& forall|j: int|
        0 <= j < h.len() && #[trigger] h[j] == 10 ==> j + 1 < h.len() && h[j + 1] != 10 && h[j + 1]
            != 13
}

proof fn lemma_dense_lines(lines: Seq<Seq<char>>)
    requires
        lines.len() > 0,
        forall|i: int|
            0 <= i < lines.len() ==> (#[trigger] lines[i]).len() > 0 && !lines[i].contains('\r')
                && !lines[i].contains('\n'),
    ensures
        dense_lines(encode_utf8(joined(lines, "\r\n"@))),
    decreases lines.len(),
{
    let last = lines.last();
    assert(lines[lines.len() - 1] == last);
    let e = encode_utf8(last);
    lemma_no_byte(last, '\r');
    lemma_no_byte(last, '\n');
    if lines.len() == 1 {
        assert(joined(lines, "\r\n"@) == last);
        assert forall|j: int| 0 <= j < e.len() implies #[trigger] e[j] != 13 && e[j] != 10 by {}
    } else {
        let front = lines.drop_last();
        assert forall|i: int| 0 <= i < front.len() implies (#[trigger] front[i]).len() > 0
            && !front[i].contains('\r') && !front[i].contains('\n') by {
            assert(front[i] == lines[i]);
        }
        lemma_dense_lines(front);
        let f = encode_utf8(joined(front, "\r\n"@));
        lemma_encode_concat(joined(front, "\r\n"@), "\r\n"@);
        lemma_encode_concat(joined(front, "\r\n"@) + "\r\n"@, last);
        lemma_line_end_bytes();
        let h = f + seq![13u8, 10u8] + e;
        assert(encode_utf8(joined(lines, "\r\n"@)) =~= h);
        let n = f.len() as int;
        assert forall|j: int| 0 <= j < h.len() && #[trigger] h[j] == 13 implies j + 1 < h.len()
            && h[j + 1] == 10 by {
            if j < n {
                assert(h[j] == f[j]);
                assert(h[j + 1] == f[j + 1]);
            } else if j >= n + 2 {
                assert(h[j] == e[j - n - 2]);
            }
        }
        assert forall|j: int| 0 <= j < h.len() && #[trigger] h[j] == 10 implies j + 1 < h.len()
            && h[j + 1] != 10 && h[j + 1] != 13 by {
            if j < n {
                assert(h[j] == f[j]);
                assert(h[j + 1] == f[j + 1]);
            } else if j == n + 1 {
                assert(h[j + 1] == e[0]);
            } else if j >= n + 2 {
                assert(h[j] == e[j - n - 2]);
            }
        }
    }
}

/// A written mail is taken apart into its header and its body, whatever stands in the body.
pub proof fn a_written_mail_is_split(fields: Seq<(Seq<char>, Seq<char>)>, body: Seq<u8>)
    requires
        proper_fields(fields),
    ensures
        head_and_body(written_mail(fields, body)) == (encode_utf8(written_head(fields)), body),
{
    let h = encode_utf8(written_head(fields));
    let end = seq![13u8, 10u8, 13u8, 10u8];
    let lf = seq![10u8, 10u8];
    let raw = h + end + body;
    let n = h.len() as int;
    lemma_field_lines(fields);
    assert forall|i: int| 0 <= i < field_lines(fields).len() implies (#[trigger] field_lines(
        fields,
    )[i]).len() > 0 && !field_lines(fields)[i].contains('\r') && !field_lines(fields)[i].contains(
        '\n',
    ) by {}
    lemma_dense_lines(field_lines(fields));
    assert forall|j: int| 0 <= j < n implies (#[trigger] empty_line_at(raw, j)) is None by {
        assert(raw[j] == h[j]);
        if occurs(raw, end, j) {
            let t = raw.subrange(j, j + 4);
            assert(t[0] == 13 && t[1] == 10 && t[2] == 13);
            assert(h[j + 1] == 10);
            assert(raw[j + 2] == h[j + 2]);
        }
        if occurs(raw, lf, j) {
            let t = raw.subrange(j, j + 2);
            assert(t[0] == 10 && t[1] == 10);
            assert(raw[j + 1] == h[j + 1]);
        }
    }
    assert(raw.subrange(n, n + 4) =~= end);
    lemma_no_empty_line(raw, 0, n);
    assert(raw.subrange(0, n) =~= h);
    assert(raw.subrange(n + 4, raw.len() as int) =~= body);
}

/// The first field of that name, in any case, is at `at`.
pub open spec fn first_field(
    fields: Seq<(Seq<char>, Seq<char>)>,
    name: Seq<char>,
    at: int,
) -> bool {
    &&& 0 <= at < fields.len()
    &&& ascii_lower(fields[at].0) == name
    &&& no_field_before(fields, name, at)
}

/// None of the first `at` fields has that name, in any case.
pub open spec fn no_field_before(
    fields: Seq<(Seq<char>, Seq<char>)>,
    name: Seq<char>,
    at: int,
) -> bool {
    forall|i: int| 0 <= i < at ==> ascii_lower((#[trigger] fields[i]).0) != name
}

proof fn lemma_field_from(
    fields: Seq<(Seq<char>, Seq<char>)>,
    name: Seq<char>,
    i: int,
    at: int,
)
    requires
        0 <= i <= at <= fields.len(),
        no_field_before(fields, name, at),
        at < fields.len() ==> ascii_lower(fields[at].0) == name,
    ensures
        field_from(read_fields(fields), name, i) == (if at < fields.len() {
            Some(fields[at].1)
        } else {
            None
        }),
    decreases at - i,
{
    if i < at {
        assert(ascii_lower(fields[i].0) != name);
        lemma_field_from(fields, name, i + 1, at);
    }
}

/// The first field of a name is the one that counts, in whatever case the name is written.
pub proof fn the_first_field_counts(fields: Seq<(Seq<char>, Seq<char>)>, name: Seq<char>, at: int)
    ensures
        first_field(fields, name, at) ==> field(read_fields(fields), name) == Some(fields[at].1)
            && field_or_empty(read_fields(fields), name) == fields[at].1,
        no_field_before(fields, name, fields.len() as int) ==> field(read_fields(fields), name)
            is None && field_or_empty(read_fields(fields), name) == Seq::<char>::empty(),
{
    if first_field(fields, name, at) {
        lemma_field_from(fields, name, 0, at);
    }
    if no_field_before(fields, name, fields.len() as int) {
        lemma_field_from(fields, name, 0, fields.len() as int);
    }
}

/// A value that goes on on the next line, behind a space or a tab, is read as one value, with one
/// space where the lines meet.
pub proof fn folded_values_are_joined(
    name: Seq<char>,
    first: Seq<char>,
    indent: char,
    second: Seq<char>,
)
    requires
        header_name(name),
        line_value(first),
        line_value(second),
        indent == ' ' || indent == '\t',
    ensures
        header_fields(
            encode_utf8(header_line(name, first) + "\r\n"@ + (seq![indent] + second)),
        ) == seq![(ascii_lower(name), first + seq![' '] + second)],
{
    reveal_strlit("\r\n");
    reveal_strlit(": ");
    let a = header_line(name, first);
    let b = seq![indent] + second;
    let lines = seq![a, b];
    let text = a + "\r\n"@ + b;
    lemma_line_holds(name, first);
    assert forall|j: int| 0 <= j < b.len() implies #[trigger] b[j] != '\n' by {
        if j > 0 {
            assert(second.contains(second[j - 1]));
        }
    }
    assert(lines.drop_last() =~= seq![a]);
    assert(joined(lines.drop_last(), "\r\n"@) == a);
    assert(joined(lines, "\r\n"@) == text);
    assert forall|i: int| 0 <= i < lines.len() implies !(#[trigger] lines[i]).contains('\n') by {}
    lemma_head_pieces(lines);
    let parts = with_returns(lines.drop_last()).push(lines.last());
    assert(parts =~= seq![a.push('\r'), b]);
    encode_utf8_valid_utf8(text);
    encode_utf8_decode_utf8(text);
    assert(lossy_text(encode_utf8(text)) == text);
    let empty = HeaderState { done: seq![], name: None, value: seq![] };
    assert(a.push('\r').drop_last() =~= a);
    lemma_header_step(empty, name, first, a.push('\r'));
    let one = header_step(empty, a.push('\r'));
    assert(b[b.len() - 1] == second[second.len() - 1]);
    assert(is_space('\r'));
    assert(without_cr(b) == b);
    crate::text::lemma_trimmed_is(b, 1, b.len() as int);
    assert(b.subrange(1, b.len() as int) =~= second);
    let two = header_step(one, b);
    assert(two.value =~= first + seq![' '] + second);
    assert(parts.drop_last() =~= seq![a.push('\r')]);
    assert(parts.drop_last().drop_last() =~= seq![]);
    reveal_with_fuel(header_fold, 3);
    assert(header_fold(parts) == two);
    assert(header_flush(two).done =~= seq![(ascii_lower(name), first + seq![' '] + second)]);
}

/// A header with these fields, whose lines end with newlines alone.
pub open spec fn bare_head(fields: Seq<(Seq<char>, Seq<char>)>) -> Seq<char> {
    joined(field_lines(fields), seq!['\n'])
}

/// Every newline of a header stands between two lines.
proof fn lemma_bare_lines(lines: Seq<Seq<char>>)
    requires
        lines.len() > 0,
        forall|i: int|
            0 <= i < lines.len() ==> (#[trigger] lines[i]).len() > 0 && !lines[i].contains('\r')
                && !lines[i].contains('\n'),
    ensures
        ({
            let h = encode_utf8(joined(lines, seq!['\n']));
            &&& h.len() > 0
            &&& forall|j: int| 0 <= j < h.len() ==> #[trigger] h[j] != 13
            &&& forall|j: int|
                0 <= j < h.len() && #[trigger] h[j] == 10 ==> j + 1 < h.len() && h[j + 1] != 10
        }),
    decreases lines.len(),
{
    let last = lines.last();
    assert(lines[lines.len() - 1] == last);
    let e = encode_utf8(last);
    lemma_no_byte(last, '\r');
    lemma_no_byte(last, '\n');
    if lines.len() == 1 {
        assert(joined(lines, seq!['\n']) == last);
    } else {
        let front = lines.drop_last();
        assert forall|i: int| 0 <= i < front.len() implies (#[trigger] front[i]).len() > 0
            && !front[i].contains('\r') && !front[i].contains('\n') by {
            assert(front[i] == lines[i]);
        }
        lemma_bare_lines(front);
        let nl = seq!['\n'];
        let f = encode_utf8(joined(front, nl));
        lemma_encode_concat(joined(front, nl), nl);
        lemma_encode_concat(joined(front, nl) + nl, last);
        assert(encode_utf8(nl) =~= seq![10u8]) by {
            assert((10u32 & 0x7f) as u8 == 10) by (bit_vector);
            assert(nl.drop_first() =~= seq![]);
            reveal_with_fuel(encode_utf8, 2);
        }
        let h = f + seq![10u8] + e;
        assert(encode_utf8(joined(lines, nl)) =~= h);
        let n = f.len() as int;
        assert forall|j: int| 0 <= j < h.len() implies #[trigger] h[j] != 13 by {
            if j < n {
                assert(h[j] == f[j]);
            } else if j > n {
                assert(h[j] == e[j - n - 1]);
            }
        }
        assert forall|j: int| 0 <= j < h.len() && #[trigger] h[j] == 10 implies j + 1 < h.len()
            && h[j + 1] != 10 by {
            if j < n {
                assert(h[j] == f[j]);
                assert(h[j + 1] == f[j + 1]);
            } else if j == n {
                assert(h[j + 1] == e[0]);
            } else {
                assert(h[j] == e[j - n - 1]);
            }
        }
    }
}

/// A mail whose lines end with newlines alone is read like any other: the same fields, and the same
/// body.
pub proof fn a_mail_with_bare_newlines_is_read(
    fields: Seq<(Seq<char>, Seq<char>)>,
    body: Seq<u8>,
)
    requires
        proper_fields(fields),
    ensures
        head_and_body(encode_utf8(bare_head(fields)) + seq![10u8, 10u8] + body) == (
            encode_utf8(bare_head(fields)),
            body,
        ),
        header_fields(encode_utf8(bare_head(fields))) == read_fields(fields),
{
    let lines = field_lines(fields);
    let text = bare_head(fields);
    let h = encode_utf8(text);
    lemma_field_lines(fields);
    assert forall|i: int| 0 <= i < lines.len() implies (#[trigger] lines[i]).len() > 0
        && !lines[i].contains('\r') && !lines[i].contains('\n') by {}
    // The header.
    encode_utf8_valid_utf8(text);
    encode_utf8_decode_utf8(text);
    split_after_join(lines, '\n');
    assert forall|i: int| 0 <= i < lines.len() implies without_cr(#[trigger] lines[i])
        == header_line(fields[i].0, fields[i].1) by {}
    lemma_fold(fields, lines, lines.len() as int);
    assert(lines.take(lines.len() as int) =~= lines);
    assert(fields.take(fields.len() as int) =~= fields);
    // The empty line.
    lemma_bare_lines(lines);
    let end = seq![13u8, 10u8, 13u8, 10u8];
    let lf = seq![10u8, 10u8];
    let raw = h + lf + body;
    let n = h.len() as int;
    assert forall|j: int| 0 <= j < n implies (#[trigger] empty_line_at(raw, j)) is None by {
        assert(raw[j] == h[j]);
        if occurs(raw, end, j) {
            assert(raw.subrange(j, j + 4)[0] == raw[j]);
        }
        if occurs(raw, lf, j) {
            let t = raw.subrange(j, j + 2);
            assert(t[0] == raw[j] && t[1] == raw[j + 1]);
            assert(raw[j + 1] == h[j + 1]);
        }
    }
    assert(raw.subrange(n, n + 2) =~= lf);
    assert(!occurs(raw, end, n)) by {
        if occurs(raw, end, n) {
            assert(raw.subrange(n, n + 4)[0] == raw[n]);
        }
    }
    lemma_no_empty_line(raw, 0, n);
    assert(raw.subrange(0, n) =~= h);
    assert(raw.subrange(n + 2, raw.len() as int) =~= body);
}

/// One more line at the end of a text is one more piece.
proof fn lemma_one_more_line(h: Seq<char>, line: Seq<char>)
    requires
        !line.contains('\n'),
    ensures
        pieces(h + seq!['\n'] + line, '\n') == pieces(h, '\n').push(line),
{
    let p = pieces(h, '\n');
    lemma_pieces(h, '\n', 0);
    assert(h.subrange(0, h.len() as int) =~= h);
    let all = p.push(line);
    assert(all.drop_last() =~= p);
    assert(joined(all, seq!['\n']) =~= h + seq!['\n'] + line);
    assert forall|i: int| 0 <= i < all.len() implies !(#[trigger] all[i]).contains('\n') by {
        if i < p.len() {
            assert(all[i] == p[i]);
        }
    }
    split_after_join(all, '\n');
}

/// Before the first field there is no field, and after it there always is one.
proof fn lemma_named(lines: Seq<Seq<char>>)
    ensures
        header_fold(lines).name is None ==> header_fold(lines).done.len() == 0,
    decreases lines.len(),
{
    if lines.len() > 0 {
        lemma_named(lines.drop_last());
    }
}

/// A header is read line by line, whatever came before: a line that starts with a space or a tab goes
/// on with the last value, behind one space, and a line with a name and a value is one more field.
pub proof fn headers_are_read_line_by_line(
    h: Seq<char>,
    indent: char,
    more: Seq<char>,
    name: Seq<char>,
    value: Seq<char>,
)
    requires
        header_fields(encode_utf8(h)).len() > 0,
        indent == ' ' || indent == '\t',
        line_value(more),
        header_name(name),
        line_value(value),
    ensures
        ({
            let f = header_fields(encode_utf8(h));
            &&& header_fields(encode_utf8(h + seq!['\n'] + (seq![indent] + more)))
                == f.drop_last().push((f.last().0, f.last().1 + seq![' '] + more))
            &&& header_fields(encode_utf8(h + seq!['\n'] + header_line(name, value))) == f.push(
                (ascii_lower(name), value),
            )
        }),
{
    let cont = seq![indent] + more;
    let line = header_line(name, value);
    let a = h + seq!['\n'] + cont;
    let b = h + seq!['\n'] + line;
    encode_utf8_valid_utf8(h);
    encode_utf8_decode_utf8(h);
    encode_utf8_valid_utf8(a);
    encode_utf8_decode_utf8(a);
    encode_utf8_valid_utf8(b);
    encode_utf8_decode_utf8(b);
    assert forall|j: int| 0 <= j < cont.len() implies #[trigger] cont[j] != '\n' by {
        if j > 0 {
            assert(more.contains(more[j - 1]));
        }
    }
    lemma_line_holds(name, value);
    lemma_one_more_line(h, cont);
    lemma_one_more_line(h, line);
    let p = pieces(h, '\n');
    let st = header_fold(p);
    lemma_named(p);
    assert(st.name is Some);
    assert(p.push(cont).drop_last() =~= p);
    assert(p.push(line).drop_last() =~= p);
    // The line that goes on.
    assert(cont[cont.len() - 1] == more[more.len() - 1]);
    assert(is_space('\r'));
    assert(without_cr(cont) == cont);
    crate::text::lemma_trimmed_is(cont, 1, cont.len() as int);
    assert(cont.subrange(1, cont.len() as int) =~= more);
    let f = header_flush(st).done;
    assert(f.drop_last() =~= st.done);
    assert(st.value.push(' ') + more =~= st.value + seq![' '] + more);
    // The line that starts a field.
    assert(line.len() > 0);
    assert(line.contains(line[line.len() - 1]));
    assert(without_cr(line) == line);
    lemma_header_step(st, name, value, line);
}

/// White space may stand around a name and before a value, and is no part of them; white space behind a
/// value is. A line without a colon is a value without a name.
pub proof fn fields_may_be_padded(
    name: Seq<char>,
    pad: Seq<char>,
    gap: Seq<char>,
    value: Seq<char>,
    h: Seq<char>,
    junk: Seq<char>,
)
    requires
        header_name(name),
        forall|i: int| 0 <= i < pad.len() ==> (#[trigger] pad[i] == ' ' || pad[i] == '\t'),
        forall|i: int| 0 <= i < gap.len() ==> (#[trigger] gap[i] == ' ' || gap[i] == '\t'),
        value.len() > 0,
        !is_space(value[0]),
        !value.contains('\n'),
        value.last() != '\r',
        header_fields(encode_utf8(h)).len() > 0,
        line_value(junk),
        !junk.contains(':'),
    ensures
        header_fields(encode_utf8(name + pad + seq![':'] + gap + value)) == seq![
            (ascii_lower(name), value),
        ],
        header_fields(encode_utf8(h + seq!['\n'] + junk)) == header_fields(encode_utf8(h)).push(
            (Seq::<char>::empty(), junk),
        ),
{
    // The padded field.
    let left = name + pad;
    let right = gap + value;
    let line = name + pad + seq![':'] + gap + value;
    assert(line =~= left + seq![':'] + right);
    encode_utf8_valid_utf8(line);
    encode_utf8_decode_utf8(line);
    let k = name.len() as int;
    assert forall|i: int| 0 <= i < left.len() implies #[trigger] left[i] != ':' by {
        if i < k {
            assert(left[i] == name[i]);
        } else {
            assert(left[i] == pad[i - k]);
        }
    }
    lemma_split_once(left, ':', right);
    assert forall|i: int| 0 <= i < k implies !is_space(#[trigger] left[i]) by {
        assert(left[i] == name[i]);
    }
    assert forall|i: int| k <= i < left.len() implies is_space(#[trigger] left[i]) by {
        assert(left[i] == pad[i - k]);
    }
    crate::text::lemma_trimmed_is(left, 0, k);
    assert(left.subrange(0, k) =~= name);
    let g = gap.len() as int;
    assert forall|i: int| 0 <= i < g implies !Class::Ink.admits(#[trigger] right[i]) by {
        assert(right[i] == gap[i]);
    }
    assert(right[g] == value[0]);
    lemma_next_is(right, Class::Ink, 0, g);
    assert(right.subrange(g, right.len() as int) =~= value);
    assert(line[line.len() - 1] == value.last());
    assert(without_cr(line) == line);
    assert forall|i: int| 0 <= i < line.len() implies #[trigger] line[i] != '\n' by {
        if i < left.len() {
            assert(line[i] == left[i]);
            if i < k {
                assert(left[i] == name[i]);
            } else {
                assert(left[i] == pad[i - k]);
            }
        } else if i > left.len() {
            assert(line[i] == right[i - left.len() - 1]);
            if i - left.len() - 1 >= g {
                assert(right[i - left.len() - 1] == value[i - left.len() - 1 - g]);
                assert(value.contains(value[i - left.len() - 1 - g]));
            }
        }
    }
    lemma_one_piece(line);
    assert(line[0] == name[0]);
    assert(is_ascii_chars(name));
    assert(lower_case(name) == ascii_lower(name));
    let empty = HeaderState { done: seq![], name: None, value: seq![] };
    let one = seq![line];
    assert(one.drop_last() =~= seq![]);
    assert(header_fold(one.drop_last()) == empty);
    assert(header_fold(one) == header_step(empty, line));
    assert(empty.value + value =~= value);
    assert(header_flush(header_fold(one)).done =~= seq![(ascii_lower(name), value)]);
    // The line without a colon.
    let b = h + seq!['\n'] + junk;
    encode_utf8_valid_utf8(h);
    encode_utf8_decode_utf8(h);
    encode_utf8_valid_utf8(b);
    encode_utf8_decode_utf8(b);
    lemma_one_more_line(h, junk);
    let p = pieces(h, '\n');
    lemma_named(p);
    assert(p.push(junk).drop_last() =~= p);
    assert(junk[junk.len() - 1] != '\r') by {
        assert(junk.contains(junk[junk.len() - 1]));
    }
    assert(without_cr(junk) == junk);
    assert forall|i: int| 0 <= i < junk.len() implies !Class::Is(':').admits(#[trigger] junk[i]) by {
        assert(junk.contains(junk[i]));
    }
    lemma_next_is(junk, Class::Is(':'), 0, junk.len() as int);
    assert(Seq::<char>::empty() + junk =~= junk);
}

/// A text without newlines is one piece.
proof fn lemma_one_piece(line: Seq<char>)
    requires
        forall|i: int| 0 <= i < line.len() ==> #[trigger] line[i] != '\n',
    ensures
        pieces(line, '\n') == seq![line],
{
    let one = seq![line];
    assert(joined(one, seq!['\n']) =~= line) by {
        reveal_with_fuel(joined, 2);
    }
    assert forall|i: int| 0 <= i < one.len() implies !(#[trigger] one[i]).contains('\n') by {}
    split_after_join(one, '\n');
}

} // verus!
