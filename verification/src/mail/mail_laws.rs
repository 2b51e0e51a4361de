//! A mail that was written is the mail that is read: its subject, its sender and its text, in any
//! transfer encoding, on its own or as a part of a larger message.
use vstd::prelude::*;
use vstd::utf8::{encode_utf8, encode_utf8_decode_utf8, encode_utf8_valid_utf8, is_ascii_chars};

use crate::lines::{lemma_encode_concat, lemma_no_byte, lemma_pieces_behind, pieces};
use crate::mail::charset::charset_text;
use crate::mail::html::{cleaned, html_text};
use crate::mail::html_laws::only_blank_texts_vanish;
use crate::mail::message::{
    found_all, found_leaf, found_leaves, found_outer, found_part, lemma_found_concat,
    lemma_leaves_stay, lemma_text_stays, mail_of, nothing_found, shown, transferred, Found,
    MailView,
};
use crate::mail::mime::{
    field_or_empty, head_and_body, header_fields, lemma_line_end_is, lemma_plain_behind,
    lemma_plain_lines, line_kind, multipart, open_part, param, param_at, param_place, param_value,
    parts_from, plain_from, prefixed_ci, LineKind,
};
use crate::mail::plain::{lemma_line_end_bytes, line_value};
use crate::mail::transfer::{base64_round_trip, base64_written, dense, quoted_printable};
use crate::mail::words::{header_text, lemma_utf8_label};
use crate::mail::written::{
    a_written_mail_is_split, first_field, no_field_before, proper_fields, read_fields,
    the_first_field_counts, written_fields_are_read, written_head, written_mail,
};
use crate::text::{
    ascii_lower, blank, found, is_ascii_space, lemma_end_of, lemma_end_of_is, lemma_found,
    lemma_found_at, lemma_next, lemma_next_is, lemma_trimmed_is, lower, next, occurs, occurs_ci,
    prefixed, trimmed, upto_class, within, Class,
};
use crate::unicode::{lossy_text, lower_case};

verus! {

// ───────────────────────── parameters ─────────────────────────

/// A parameter whose name starts with a letter that does not occur has no place.
pub proof fn lemma_no_param(s: Seq<char>, name: Seq<char>)
    requires
        name.len() > 0,
        forall|i: int| 0 <= i < s.len() ==> lower(#[trigger] s[i]) != lower(name[0]),
    ensures
        param(s, name) is None,
{
    let key = name.push('=');
    lemma_found(s, key, 0);
    if let Some(i) = found(s, key, 0) {
        assert(s.subrange(i, i + key.len())[0] == s[i]);
        assert(lower(s[i]) != lower(name[0]));
    }
    lemma_no_place(s, key, 0, s.len() as int);
}

/// No parameter of that name starts before `to`.
proof fn lemma_no_place(s: Seq<char>, key: Seq<char>, from: int, to: int)
    requires
        0 <= from <= to <= s.len(),
        key.len() > 0,
        forall|i: int| from <= i < to ==> lower(#[trigger] s[i]) != lower(key[0]),
    ensures
        param_place(s, key, from) == param_place(s, key, to),
    decreases to - from,
{
    if from < to {
        if occurs_ci(s, key, from) {
            let low = ascii_lower(s);
            assert(low.subrange(from, from + key.len())[0] == low[from]);
            assert(ascii_lower(key)[0] == lower(key[0]));
            assert(lower(s[from]) != lower(key[0]));
        }
        lemma_no_place(s, key, from + 1, to);
        if from + key.len() > s.len() {
            assert(param_place(s, key, to) is None);
        }
    }
}

/// A value that needs no quotes ends where white space or a semicolon does; one in quotes ends at
/// the closing quote, whatever stands in it.
pub proof fn parameter_values_are_read(value: Seq<char>, after: Seq<char>)
    ensures
        (forall|i: int| 0 <= i < value.len() ==> #[trigger] value[i] != ';' && !is_ascii_space(
            value[i],
        ) && value[i] != '"') && (after.len() > 0 ==> after[0] == ';' || is_ascii_space(after[0]))
            && value.len() > 0 ==> param_value(value + after) == value,
        !value.contains('"') ==> param_value(seq!['"'] + value + seq!['"'] + after) == value,
{
    if (forall|i: int| 0 <= i < value.len() ==> #[trigger] value[i] != ';' && !is_ascii_space(
        value[i],
    ) && value[i] != '"') && (after.len() > 0 ==> after[0] == ';' || is_ascii_space(after[0]))
        && value.len() > 0 {
        let s = value + after;
        let n = value.len() as int;
        assert forall|i: int| 0 <= i < n implies !Class::ParamEnd.admits(#[trigger] s[i]) by {
            assert(s[i] == value[i]);
        }
        if after.len() > 0 {
            assert(s[n] == after[0]);
        }
        lemma_next_is(s, Class::ParamEnd, 0, n);
        assert(s[0] == value[0]);
        assert(s.subrange(0, n) =~= value);
    }
    if !value.contains('"') {
        let s = seq!['"'] + value + seq!['"'] + after;
        let n = value.len() as int + 1;
        assert forall|i: int| 1 <= i < n implies !Class::Is('"').admits(#[trigger] s[i]) by {
            assert(s[i] == value[i - 1]);
            assert(value.contains(value[i - 1]));
        }
        assert(s[0] == '"' && s[n] == '"');
        lemma_next_is(s, Class::Is('"'), 1, n);
        assert(s.subrange(1, n) =~= value);
    }
}

/// A parameter is found behind what comes before it, and its value is what follows the `=`. Its
/// name may be written in any case, where a parameter can start.
pub proof fn parameters_are_found(
    before: Seq<char>,
    name: Seq<char>,
    written: Seq<char>,
    rest: Seq<char>,
)
    requires
        name.len() > 0,
        forall|i: int| 0 <= i < before.len() ==> lower(#[trigger] before[i]) != lower(name[0]),
        ascii_lower(written) == ascii_lower(name),
        written == name || (!within(before + written + seq!['='] + rest, name.push('=')) && (
        before.len() > 0 ==> before.last() == ';' || is_ascii_space(before.last()))),
    ensures
        param(before + written + seq!['='] + rest, name) == Some(param_value(rest)),
{
    let s = before + written + seq!['='] + rest;
    let key = name.push('=');
    let n = before.len() as int;
    assert(written.len() == ascii_lower(written).len());
    assert(name.len() == ascii_lower(name).len());
    let m = key.len() as int;
    assert(s.subrange(n + m, s.len() as int) =~= rest);
    lemma_found(s, key, 0);
    if written == name {
        assert(s.subrange(n, n + m) =~= key);
        assert forall|j: int| 0 <= j < n implies !occurs(s, key, j) by {
            if occurs(s, key, j) {
                assert(s.subrange(j, j + m)[0] == s[j]);
                assert(lower(before[j]) != lower(name[0]));
            }
        }
        lemma_found_at(s, key, 0, n);
    } else {
        assert(found(s, key, 0) is None);
        assert forall|i: int| 0 <= i < n implies lower(#[trigger] s[i]) != lower(key[0]) by {
            assert(s[i] == before[i]);
        }
        lemma_no_place(s, key, 0, n);
        let low = ascii_lower(s);
        assert forall|i: int| 0 <= i < m implies #[trigger] low[n + i] == ascii_lower(key)[i] by {
            if i < name.len() {
                assert(s[n + i] == written[i]);
                assert(ascii_lower(written)[i] == lower(written[i]));
                assert(ascii_lower(name)[i] == lower(name[i]));
                assert(key[i] == name[i]);
            } else {
                assert(s[n + i] == '=');
            }
        }
        let stretch = low.subrange(n, n + m);
        assert forall|i: int| 0 <= i < m implies #[trigger] stretch[i] == ascii_lower(key)[i] by {
            assert(stretch[i] == low[n + i]);
        }
        assert(stretch =~= ascii_lower(key));
        assert(occurs_ci(s, key, n));
        if n > 0 {
            assert(s[n - 1] == before.last());
        }
        assert(param_at(s, key, n));
    }
}

// ───────────────────────── one text ─────────────────────────

/// The transfer encodings.
pub enum Coding {
    /// The bytes as they are.
    Plain,
    Base64,
    Quoted,
}

/// `s` writes the bytes `b` in that encoding, however it is broken into lines.
pub open spec fn carries(coding: Coding, s: Seq<u8>, b: Seq<u8>) -> bool {
    match coding {
        Coding::Plain => s == b,
        Coding::Base64 => dense(s) == base64_written(b),
        Coding::Quoted => quoted_printable(s) == b,
    }
}

/// The fields declare that encoding, in any case, in the field at `e`.
pub open spec fn declares_coding(
    fields: Seq<(Seq<char>, Seq<char>)>,
    coding: Coding,
    e: int,
) -> bool {
    let name = "content-transfer-encoding"@;
    match coding {
        Coding::Plain => no_field_before(fields, name, fields.len() as int) || (first_field(
            fields,
            name,
            e,
        ) && (ascii_lower(fields[e].1) == "7bit"@ || ascii_lower(fields[e].1) == "8bit"@)),
        Coding::Base64 => first_field(fields, name, e) && ascii_lower(fields[e].1) == "base64"@,
        Coding::Quoted => first_field(fields, name, e) && ascii_lower(fields[e].1)
            == "quoted-printable"@,
    }
}

/// The content type of a text in UTF-8.
pub open spec fn text_type(html: bool, label: Seq<char>) -> Seq<char> {
    if html {
        "text/html; charset="@ + label
    } else {
        "text/plain; charset="@ + label
    }
}

/// The fields declare a text in UTF-8, plain or HTML, in the field at `c`.
pub open spec fn declares_text(
    fields: Seq<(Seq<char>, Seq<char>)>,
    html: bool,
    label: Seq<char>,
    c: int,
) -> bool {
    &&& first_field(fields, "content-type"@, c)
    &&& ascii_lower(label) == "utf-8"@
    &&& fields[c].1 == text_type(html, label)
}

pub proof fn lemma_ascii_of_lower(s: Seq<char>)
    requires
        is_ascii_chars(ascii_lower(s)),
    ensures
        is_ascii_chars(s),
{
    assert forall|i: int| 0 <= i < s.len() implies '\0' <= #[trigger] s[i] <= '\u{7f}' by {
        assert(ascii_lower(s)[i] == lower(s[i]));
        assert(ascii_lower(s)[i] <= '\u{7f}');
    }
}

/// A transfer encoding that is declared is undone.
pub proof fn lemma_transferred(
    fields: Seq<(Seq<char>, Seq<char>)>,
    coding: Coding,
    e: int,
    s: Seq<u8>,
    b: Seq<u8>,
)
    requires
        proper_fields(fields),
        declares_coding(fields, coding, e),
        carries(coding, s, b),
    ensures
        transferred(read_fields(fields), s) == b,
{
    let name = "content-transfer-encoding"@;
    let h = read_fields(fields);
    the_first_field_counts(fields, name, e);
    let v = field_or_empty(h, name);
    reveal_strlit("base64");
    reveal_strlit("quoted-printable");
    reveal_strlit("7bit");
    reveal_strlit("8bit");
    if first_field(fields, name, e) {
        let low = ascii_lower(v);
        assert(v == fields[e].1);
        assert(line_value(fields[e].1));
        assert(is_ascii_chars(low));
        lemma_ascii_of_lower(v);
        assert(lower_case(v) == low);
        assert(low.len() == v.len());
        assert(low[0] == lower(v[0]));
        assert(low[low.len() - 1] == lower(v[v.len() - 1]));
        lemma_trimmed_is(low, 0, low.len() as int);
        assert(low.subrange(0, low.len() as int) =~= low);
        assert("base64"@.len() == 6 && "quoted-printable"@.len() == 16 && "7bit"@.len() == 4
            && "8bit"@.len() == 4);
    } else {
        let none = Seq::<char>::empty();
        assert(is_ascii_chars(none));
        assert(lower_case(none) =~= none);
        assert(trimmed(none) =~= none);
        assert("base64"@.len() == 6 && "quoted-printable"@.len() == 16);
    }
    if coding is Base64 {
        base64_round_trip(b, s);
    }
}

/// What the content type of a text says.
proof fn lemma_text_type(html: bool, label: Seq<char>)
    requires
        ascii_lower(label) == "utf-8"@,
    ensures
        ({
            let ct = text_type(html, label);
            &&& is_ascii_chars(ct)
            &&& lower_case(ct) == text_type(html, ascii_lower(label))
            &&& param(ct, "boundary"@) is None
            &&& param(ct, "charset"@) == Some(label)
            &&& within(lower_case(ct), "text/html"@) == html
            &&& within(lower_case(ct), "text/plain"@) == !html
            &&& !within(lower_case(ct), "multipart/"@)
        }),
{
    reveal_strlit("text/html; charset=");
    reveal_strlit("text/plain; charset=");
    reveal_strlit("text/html");
    reveal_strlit("text/plain");
    reveal_strlit("multipart/");
    reveal_strlit("boundary");
    reveal_strlit("charset");
    reveal_strlit("utf-8");
    let ct = text_type(html, label);
    let kind = if html {
        "text/html; charset="@
    } else {
        "text/plain; charset="@
    };
    let n = kind.len() as int;
    assert(label.len() == ascii_lower(label).len());
    assert(label.len() == 5);
    assert forall|i: int| 0 <= i < 5 implies lower(#[trigger] label[i]) == "utf-8"@[i] by {
        assert(ascii_lower(label)[i] == lower(label[i]));
    }
    assert(is_ascii_chars(ascii_lower(label)));
    lemma_ascii_of_lower(label);
    assert forall|i: int| 0 <= i < ct.len() implies '\0' <= #[trigger] ct[i] <= '\u{7f}' by {
        if i >= n {
            assert(ct[i] == label[i - n]);
        }
    }
    assert(is_ascii_chars(ct));
    let low = ascii_lower(ct);
    assert(low =~= text_type(html, ascii_lower(label)));
    // No parameter starts with the letter of `boundary`.
    assert forall|i: int| 0 <= i < ct.len() implies lower(#[trigger] ct[i]) != lower(
        "boundary"@[0],
    ) by {
        if i >= n {
            assert(ct[i] == label[i - n]);
            assert(lower(label[i - n]) == "utf-8"@[i - n]);
        }
    }
    lemma_no_param(ct, "boundary"@);
    // The charset.
    let before = kind.subrange(0, n - 8);
    assert(ct =~= before + "charset"@ + seq!['='] + label);
    assert forall|i: int| 0 <= i < before.len() implies lower(#[trigger] before[i]) != lower(
        "charset"@[0],
    ) by {
        assert(before[i] == kind[i]);
    }
    parameters_are_found(before, "charset"@, "charset"@, label);
    assert forall|i: int| 0 <= i < label.len() implies #[trigger] label[i] != ';'
        && !is_ascii_space(label[i]) && label[i] != '"' by {
        assert(lower(label[i]) == "utf-8"@[i]);
    }
    parameter_values_are_read(label, seq![]);
    assert(label + Seq::<char>::empty() =~= label);
    // The type.
    if html {
        assert(low.subrange(0, 9) =~= "text/html"@);
        assert(occurs(low, "text/html"@, 0));
    } else {
        assert(low.subrange(0, 10) =~= "text/plain"@);
        assert(occurs(low, "text/plain"@, 0));
    }
    assert forall|i: int| 0 <= i < low.len() implies (#[trigger] low[i] == 'p' ==> !html) && (low[i]
        == 'm' ==> html && i == 7) by {
        if i >= n {
            assert(ct[i] == label[i - n]);
            assert(lower(label[i - n]) == "utf-8"@[i - n]);
        }
    }
    if within(low, "text/html"@) {
        let i = choose|i: int| occurs(low, "text/html"@, i);
        assert(low.subrange(i, i + 9)[7] == low[i + 7]);
        assert(low[i + 7] == 'm');
    }
    if within(low, "text/plain"@) {
        let i = choose|i: int| occurs(low, "text/plain"@, i);
        assert(low.subrange(i, i + 10)[5] == low[i + 5]);
        assert(low[i + 5] == 'p');
    }
    if within(low, "multipart/"@) {
        let i = choose|i: int| occurs(low, "multipart/"@, i);
        assert(low.subrange(i, i + 10)[0] == low[i]);
        assert(low.subrange(i, i + 10)[5] == low[i + 5]);
        assert(low[i] == 'm' && low[i + 5] == 'p');
    }
}

/// The bytes of a text in UTF-8 are read as the text.
proof fn lemma_utf8_text(t: Seq<char>, label: Seq<char>)
    requires
        ascii_lower(label) == "utf-8"@,
    ensures
        charset_text(encode_utf8(t), Some(label)) == t,
        charset_text(encode_utf8(t), Some(ascii_lower(label))) == t,
{
    lemma_utf8_label(label);
    assert(ascii_lower(ascii_lower(label)) =~= ascii_lower(label));
    lemma_utf8_label(ascii_lower(label));
    encode_utf8_valid_utf8(t);
    encode_utf8_decode_utf8(t);
}

/// A mail with a text in UTF-8 is read as it was written, in any transfer encoding: its subject and
/// its sender, with the encoded words in them decoded, and its text. Plain text is made clean; of
/// HTML the text is taken. Other fields do not matter, nor does the case of names.
pub proof fn a_text_mail_is_read(
    fields: Seq<(Seq<char>, Seq<char>)>,
    subject: int,
    from: int,
    html: bool,
    label: Seq<char>,
    c: int,
    coding: Coding,
    e: int,
    s: Seq<u8>,
    t: Seq<char>,
)
    requires
        proper_fields(fields),
        first_field(fields, "subject"@, subject),
        first_field(fields, "from"@, from),
        declares_text(fields, html, label, c),
        declares_coding(fields, coding, e),
        carries(coding, s, encode_utf8(t)),
        html ==> !blank(t),
    ensures
        mail_of(written_mail(fields, s)) == (MailView {
            subject: header_text(fields[subject].1),
            from: header_text(fields[from].1),
            body: if html {
                html_text(t)
            } else {
                cleaned(t)
            },
        }),
{
    let h = read_fields(fields);
    a_written_mail_is_split(fields, s);
    written_fields_are_read(fields);
    the_first_field_counts(fields, "subject"@, subject);
    the_first_field_counts(fields, "from"@, from);
    the_first_field_counts(fields, "content-type"@, c);
    assert(line_value(fields[subject].1));
    assert(line_value(fields[from].1));
    lemma_trimmed_is(fields[subject].1, 0, fields[subject].1.len() as int);
    lemma_trimmed_is(fields[from].1, 0, fields[from].1.len() as int);
    assert(fields[subject].1.subrange(0, fields[subject].1.len() as int) =~= fields[subject].1);
    assert(fields[from].1.subrange(0, fields[from].1.len() as int) =~= fields[from].1);
    lemma_transferred(fields, coding, e, s, encode_utf8(t));
    lemma_text_type(html, label);
    lemma_utf8_text(t, label);
    only_blank_texts_vanish(t);
    if blank(t) {
        assert(cleaned(t) =~= seq![]);
    }
}

/// A part with a text in UTF-8 is found as it was written.
proof fn lemma_text_part(
    f: Found,
    fields: Seq<(Seq<char>, Seq<char>)>,
    html: bool,
    label: Seq<char>,
    c: int,
    coding: Coding,
    e: int,
    s: Seq<u8>,
    t: Seq<char>,
)
    requires
        proper_fields(fields),
        declares_text(fields, html, label, c),
        declares_coding(fields, coding, e),
        carries(coding, s, encode_utf8(t)),
    ensures
        ({
            let part = written_mail(fields, s);
            let (head, body) = head_and_body(part);
            let h = header_fields(head);
            &&& body == s
            &&& transferred(h, body) == encode_utf8(t)
            &&& field_or_empty(h, "content-type"@) == text_type(html, label)
            &&& !html && f.text is None ==> found_part(f, h, encode_utf8(t), false) == (Found {
                text: Some(t),
                ..f
            })
            &&& html && f.html is None ==> found_part(f, h, encode_utf8(t), false) == (Found {
                html: Some(t),
                ..f
            })
        }),
{
    a_written_mail_is_split(fields, s);
    written_fields_are_read(fields);
    the_first_field_counts(fields, "content-type"@, c);
    lemma_transferred(fields, coding, e, s, encode_utf8(t));
    lemma_text_type(html, label);
    let low = ascii_lower(label);
    assert(ascii_lower(low) =~= low);
    lemma_text_type(html, low);
    lemma_utf8_text(t, label);
}

// ───────────────────────── parts ─────────────────────────

/// A boundary that can be declared with or without quotes.
pub open spec fn proper_boundary(boundary: Seq<char>) -> bool {
    &&& boundary.len() > 0
    &&& forall|i: int|
        0 <= i < boundary.len() ==> '!' <= #[trigger] boundary[i] <= '~' && boundary[i] != ';'
            && boundary[i] != '"'
}

/// A multipart body: each part behind a delimiter, and the closing delimiter after the last.
pub open spec fn multipart_text(
    parts: Seq<Seq<char>>,
    boundary: Seq<char>,
    tail: Seq<char>,
) -> Seq<char>
    decreases parts.len(),
{
    if parts.len() == 0 {
        seq!['-', '-'] + boundary + seq!['-', '-'] + tail
    } else {
        seq!['-', '-'] + boundary + seq!['\r', '\n'] + parts[0] + multipart_text(
            parts.drop_first(),
            boundary,
            tail,
        )
    }
}

/// A part that can stand between delimiters: whole lines, none of which starts as a delimiter does.
pub open spec fn fits(part: Seq<char>, boundary: Seq<char>) -> bool {
    &&& part.len() > 0 ==> part.last() == '\n'
    &&& forall|i: int|
        0 <= i < pieces(part, '\n').len() ==> !prefixed(
            ascii_lower(#[trigger] pieces(part, '\n')[i]),
            ascii_lower(seq!['-', '-'] + boundary),
        )
}

/// The parts in bytes.
pub open spec fn encoded_parts(parts: Seq<Seq<char>>) -> Seq<Seq<u8>> {
    Seq::new(parts.len(), |i: int| encode_utf8(parts[i]))
}

proof fn lemma_lossy(s: Seq<char>)
    ensures
        lossy_text(encode_utf8(s)) == s,
{
    encode_utf8_valid_utf8(s);
    encode_utf8_decode_utf8(s);
}

/// A line that does not start as a delimiter does is content, whatever else is in it.
pub proof fn other_lines_are_content(line: Seq<char>, boundary: Seq<char>)
    requires
        !prefixed(ascii_lower(line), ascii_lower(seq!['-', '-'] + boundary)),
    ensures
        line_kind(encode_utf8(line), boundary) == LineKind::Content,
{
    lemma_lossy(line);
    reveal_strlit("--");
    let dash = "--"@ + boundary;
    assert(dash =~= seq!['-', '-'] + boundary);
    let cut = upto_class(line, Class::NonLineSpace);
    lemma_end_of(line, Class::NonLineSpace);
    let n = dash.len() as int;
    if prefixed_ci(cut, dash) {
        assert(ascii_lower(line).subrange(0, n) =~= ascii_lower(cut).subrange(0, n));
    }
    if prefixed_ci(cut, dash + "--"@) {
        let m = n + 2;
        assert(ascii_lower(line).subrange(0, n) =~= ascii_lower(cut).subrange(0, m).subrange(0, n));
        assert(ascii_lower(dash + "--"@).subrange(0, n) =~= ascii_lower(dash));
    }
}

/// A line that is `--` and the boundary, in any case, delimits parts, with white space or a
/// parameter behind it or without; with `--` right behind it, it closes the body, whatever
/// follows.
pub proof fn delimiters_are_seen(
    boundary: Seq<char>,
    written: Seq<char>,
    space: Seq<char>,
    more: Seq<char>,
)
    requires
        proper_boundary(boundary),
        ascii_lower(written) == ascii_lower(boundary),
        forall|i: int|
            0 <= i < space.len() ==> #[trigger] space[i] == ' ' || space[i] == '\t' || space[i]
                == '\r',
        more.len() > 0 ==> more[0] == ';' || (space.len() > 0 && space[0] != '\r' && !(more[0] == ' '
            || more[0] == '\t' || more[0] == '\r' || more[0] == '\n')),
    ensures
        line_kind(encode_utf8(seq!['-', '-'] + written + space), boundary)
            == LineKind::Delimiter,
        line_kind(encode_utf8(seq!['-', '-'] + written + (space + more)), boundary)
            == LineKind::Delimiter,
        line_kind(encode_utf8(seq!['-', '-'] + written + seq!['-', '-'] + more), boundary)
            == LineKind::Closing,
{
    reveal_strlit("--");
    let dash = "--"@ + boundary;
    let wrote = seq!['-', '-'] + written;
    let n = dash.len() as int;
    assert(written.len() == ascii_lower(written).len());
    assert(boundary.len() == ascii_lower(boundary).len());
    assert(ascii_lower(wrote) =~= ascii_lower(dash)) by {
        assert forall|i: int| 0 <= i < n implies #[trigger] ascii_lower(wrote)[i] == ascii_lower(
            dash,
        )[i] by {
            if i >= 2 {
                assert(ascii_lower(written)[i - 2] == ascii_lower(boundary)[i - 2]);
                assert(ascii_lower(written)[i - 2] == lower(written[i - 2]));
                assert(ascii_lower(boundary)[i - 2] == lower(boundary[i - 2]));
            }
        }
    }
    assert(ascii_lower(written)[n - 3] == lower(written[n - 3]));
    assert(ascii_lower(boundary)[n - 3] == lower(boundary[n - 3]));
    assert('!' <= boundary[n - 3] <= '~');
    assert(Class::NonLineSpace.admits(wrote[n - 1]));
    // The delimiter, with white space behind it.
    let a = wrote + space;
    lemma_lossy(a);
    assert forall|i: int| n <= i < a.len() implies !Class::NonLineSpace.admits(#[trigger] a[i]) by {
        assert(a[i] == space[i - n]);
    }
    assert(a[n - 1] == wrote[n - 1]);
    lemma_end_of_is(a, Class::NonLineSpace, n);
    assert(a.subrange(0, n) =~= wrote);
    assert(ascii_lower(wrote).subrange(0, n) =~= ascii_lower(dash));
    // With something behind the white space.
    let b = wrote + (space + more);
    lemma_lossy(b);
    if more.len() == 0 {
        assert(b =~= a);
    } else {
        let cut = upto_class(b, Class::NonLineSpace);
        lemma_end_of(b, Class::NonLineSpace);
        let k = n + space.len();
        assert(b[k] == more[0]);
        assert(Class::NonLineSpace.admits(b[k]));
        assert(cut.len() > k);
        assert(ascii_lower(cut).subrange(0, n) =~= ascii_lower(wrote));
        assert(cut[n] == b[n]);
        if space.len() > 0 {
            assert(b[n] == space[0]);
        }
        if prefixed_ci(cut, dash + "--"@) {
            assert(ascii_lower(cut).subrange(0, n + 2)[n] == ascii_lower(cut)[n]);
            assert(ascii_lower(dash + "--"@)[n] == '-');
        }
    }
    // The closing delimiter.
    let c = wrote + seq!['-', '-'] + more;
    lemma_lossy(c);
    let cut = upto_class(c, Class::NonLineSpace);
    lemma_end_of(c, Class::NonLineSpace);
    assert(c[n + 1] == '-');
    assert(Class::NonLineSpace.admits(c[n + 1]));
    assert(cut.len() >= n + 2);
    assert(ascii_lower(cut).subrange(0, n + 2) =~= ascii_lower(dash + "--"@)) by {
        assert forall|i: int| 0 <= i < n + 2 implies #[trigger] ascii_lower(cut)[i] == ascii_lower(
            dash + "--"@,
        )[i] by {
            if i < n {
                assert(cut[i] == wrote[i]);
                assert(ascii_lower(wrote)[i] == ascii_lower(dash)[i]);
                assert(ascii_lower(wrote)[i] == lower(wrote[i]));
                assert(ascii_lower(dash)[i] == lower(dash[i]));
            }
        }
    }
}

/// The lines of a part are no delimiters.
pub proof fn lemma_fits(part: Seq<char>, boundary: Seq<char>)
    requires
        fits(part, boundary),
    ensures
        plain_from(encode_utf8(part), boundary, 0),
    decreases part.len(),
{
    let b = encode_utf8(part);
    if part.len() > 0 {
        let k = next(part, Class::Is('\n'), 0);
        lemma_next(part, Class::Is('\n'), 0);
        let n = part.len() as int;
        if k == n {
            assert(!Class::Is('\n').admits(part[n - 1]));
        }
        let line = part.subrange(0, k);
        let rest = part.subrange(k + 1, n);
        let nl = seq!['\n'];
        assert(part =~= line + nl + rest);
        lemma_encode_concat(line, nl);
        lemma_encode_concat(line + nl, rest);
        lemma_newline();
        let l = encode_utf8(line);
        let r = encode_utf8(rest);
        assert(b =~= l + seq![10u8] + r);
        assert(!line.contains('\n')) by {
            assert forall|i: int| 0 <= i < line.len() implies #[trigger] line[i] != '\n' by {
                assert(!Class::Is('\n').admits(part[i]));
            }
        }
        lemma_no_byte(line, '\n');
        let j = l.len() as int;
        assert forall|i: int| 0 <= i < j implies #[trigger] b[i] != 10 by {
            assert(b[i] == l[i]);
        }
        assert(b[j] == 10);
        lemma_line_end_is(b, 0, j);
        assert(b.subrange(0, j) =~= l);
        lemma_pieces_behind(part.subrange(0, k + 1), rest, '\n', 0);
        assert(part.subrange(0, k + 1) + rest =~= part);
        assert(pieces(part, '\n') =~= seq![line] + pieces(rest, '\n'));
        assert(pieces(part, '\n')[0] == line);
        other_lines_are_content(line, boundary);
        assert forall|i: int| 0 <= i < pieces(rest, '\n').len() implies !prefixed(
            ascii_lower(#[trigger] pieces(rest, '\n')[i]),
            ascii_lower(seq!['-', '-'] + boundary),
        ) by {
            assert(pieces(part, '\n')[i + 1] == pieces(rest, '\n')[i]);
        }
        if rest.len() > 0 {
            assert(rest.last() == part.last());
        }
        lemma_fits(rest, boundary);
        assert(l + seq![10u8] + r =~= (l + seq![10u8]) + r);
        lemma_plain_behind(l + seq![10u8], r, boundary, 0);
    }
}

pub proof fn lemma_newline()
    ensures
        encode_utf8(seq!['\n']) == seq![10u8],
        encode_utf8(seq!['\r', '\n']) == seq![13u8, 10u8],
{
    assert((10u32 & 0x7f) as u8 == 10) by (bit_vector);
    let s = seq!['\n'];
    assert(s.drop_first() =~= seq![]);
    reveal_with_fuel(encode_utf8, 2);
    assert(encode_utf8(s) =~= seq![10u8]);
    lemma_line_end_bytes();
    reveal_strlit("\r\n");
    assert("\r\n"@ =~= seq!['\r', '\n']);
}

pub proof fn lemma_boundary_line(boundary: Seq<char>)
    requires
        proper_boundary(boundary),
    ensures
        !(seq!['-', '-'] + boundary).contains('\n'),
{
    let s = seq!['-', '-'] + boundary;
    assert forall|i: int| 0 <= i < s.len() implies #[trigger] s[i] != '\n' by {
        if i >= 2 {
            assert('!' <= boundary[i - 2]);
        }
    }
}

/// The parts behind `a`, where one started at `start`.
#[verifier::rlimit(60)]
#[verifier::spinoff_prover]
proof fn lemma_parts(
    a: Seq<u8>,
    start: Option<int>,
    parts: Seq<Seq<char>>,
    boundary: Seq<char>,
    tail: Seq<char>,
)
    requires
        proper_boundary(boundary),
        start matches Some(s) ==> 0 <= s <= a.len(),
        forall|i: int| 0 <= i < parts.len() ==> fits(#[trigger] parts[i], boundary),
    ensures
        parts_from(
            a + encode_utf8(multipart_text(parts, boundary, tail)),
            boundary,
            a.len() as int,
            start,
        ) == open_part(a, start, a.len() as int) + encoded_parts(parts),
    decreases parts.len(),
{
    let n = a.len() as int;
    let text = multipart_text(parts, boundary, tail);
    let b = a + encode_utf8(text);
    let wrote = seq!['-', '-'] + boundary;
    lemma_boundary_line(boundary);
    if let Some(s) = start {
        assert(b.subrange(s, n) =~= a.subrange(s, n));
    }
    if parts.len() == 0 {
        let k = next(tail, Class::Is('\n'), 0);
        lemma_next(tail, Class::Is('\n'), 0);
        let x = tail.subrange(0, k);
        let y = tail.subrange(k, tail.len() as int);
        let line = wrote + seq!['-', '-'] + x;
        assert(text =~= line + y);
        lemma_encode_concat(line, y);
        let l = encode_utf8(line);
        assert(!line.contains('\n')) by {
            assert forall|i: int| 0 <= i < line.len() implies #[trigger] line[i] != '\n' by {
                if i < wrote.len() {
                    assert(line[i] == wrote[i]);
                    assert(wrote.contains(wrote[i]));
                } else if i >= wrote.len() + 2 {
                    assert(line[i] == tail[i - wrote.len() - 2]);
                    assert(!Class::Is('\n').admits(tail[i - wrote.len() - 2]));
                }
            }
        }
        lemma_no_byte(line, '\n');
        let j = n + l.len();
        assert forall|i: int| n <= i < j implies #[trigger] b[i] != 10 by {
            assert(b[i] == l[i - n]);
        }
        if y.len() > 0 {
            assert(y[0] == '\n');
            assert(y =~= seq!['\n'] + y.drop_first());
            lemma_encode_concat(seq!['\n'], y.drop_first());
            lemma_newline();
            assert(encode_utf8(y)[0] == 10);
            assert(b[j] == encode_utf8(y)[0]);
        } else {
            assert(encode_utf8(y).len() == 0);
        }
        lemma_line_end_is(b, n, j);
        assert(b.subrange(n, j) =~= l);
        lemma_closing(boundary, x);
        assert(l.len() > 0) by {
            assert(line.len() > 0);
        }
        assert(encoded_parts(parts) =~= seq![]);
        assert(parts_from(b, boundary, n, start) == open_part(b, start, n));
        assert(open_part(b, start, n) =~= open_part(a, start, n) + encoded_parts(parts));
    } else {
        let part = parts[0];
        let rest = parts.drop_first();
        let after = multipart_text(rest, boundary, tail);
        let ret = seq!['\r'];
        let line = wrote + ret;
        let head = wrote + seq!['\r', '\n'];
        assert(head =~= line + seq!['\n']);
        assert(text =~= head + part + after);
        lemma_encode_concat(head, part);
        lemma_encode_concat(head + part, after);
        lemma_encode_concat(line, seq!['\n']);
        lemma_newline();
        let l = encode_utf8(line);
        let h = encode_utf8(head);
        let p = encode_utf8(part);
        let r = encode_utf8(after);
        assert(h =~= l + seq![10u8]);
        assert(!line.contains('\n')) by {
            assert forall|i: int| 0 <= i < line.len() implies #[trigger] line[i] != '\n' by {
                if i < wrote.len() {
                    assert(line[i] == wrote[i]);
                    assert(wrote.contains(wrote[i]));
                }
            }
        }
        lemma_no_byte(line, '\n');
        let j = n + l.len();
        assert(b =~= a + h + p + r);
        assert forall|i: int| n <= i < j implies #[trigger] b[i] != 10 by {
            assert(b[i] == l[i - n]);
        }
        assert(b[j] == 10);
        lemma_line_end_is(b, n, j);
        assert(b.subrange(n, j) =~= l);
        delimiters_are_seen(boundary, boundary, ret, seq![]);
        let a1 = a + h;
        let m = a1.len() as int;
        assert(m == j + 1);
        assert(parts_from(b, boundary, n, start) == open_part(b, start, n) + parts_from(
            b,
            boundary,
            m,
            Some(m),
        ));
        assert(fits(parts[0], boundary));
        lemma_fits(part, boundary);
        lemma_plain_lines(a1, p, r, boundary, 0, Some(m));
        let a2 = a1 + p;
        assert(b =~= a2 + r);
        assert forall|i: int| 0 <= i < rest.len() implies fits(#[trigger] rest[i], boundary) by {
            assert(rest[i] == parts[i + 1]);
        }
        lemma_parts(a2, Some(m), rest, boundary, tail);
        assert(a2.subrange(m, a2.len() as int) =~= p);
        assert(open_part(a2, Some(m), a2.len() as int) =~= seq![p]);
        assert(encoded_parts(parts) =~= seq![p] + encoded_parts(rest));
        assert(open_part(b, start, n) =~= open_part(a, start, n));
        assert(open_part(a, start, n) + (seq![p] + encoded_parts(rest)) =~= open_part(a, start, n)
            + encoded_parts(parts));
    }
}

/// The closing delimiter closes the body, whatever follows it on its line.
proof fn lemma_closing(boundary: Seq<char>, x: Seq<char>)
    requires
        proper_boundary(boundary),
    ensures
        line_kind(encode_utf8(seq!['-', '-'] + boundary + seq!['-', '-'] + x), boundary)
            == LineKind::Closing,
{
    reveal_strlit("--");
    let dash = "--"@ + boundary + "--"@;
    let c = seq!['-', '-'] + boundary + seq!['-', '-'] + x;
    let n = dash.len() as int;
    lemma_lossy(c);
    let cut = upto_class(c, Class::NonLineSpace);
    lemma_end_of(c, Class::NonLineSpace);
    assert(c[n - 1] == '-');
    assert(Class::NonLineSpace.admits(c[n - 1]));
    assert(cut.len() >= n);
    assert(ascii_lower(cut).subrange(0, n) =~= ascii_lower(dash));
}

/// The parts of a multipart body are what was put between its delimiters, in their order, and
/// nothing else.
pub proof fn parts_are_what_was_put_in(
    parts: Seq<Seq<char>>,
    boundary: Seq<char>,
    tail: Seq<char>,
)
    requires
        proper_boundary(boundary),
        forall|i: int| 0 <= i < parts.len() ==> fits(#[trigger] parts[i], boundary),
    ensures
        multipart(encode_utf8(multipart_text(parts, boundary, tail)), boundary) == encoded_parts(
            parts,
        ),
{
    let none = Seq::<u8>::empty();
    lemma_parts(none, None, parts, boundary, tail);
    let b = encode_utf8(multipart_text(parts, boundary, tail));
    assert(none + b =~= b);
    assert(open_part(none, None, 0) + encoded_parts(parts) =~= encoded_parts(parts));
}

// ───────────────────────── messages with parts ─────────────────────────

/// The content type of a message with parts: its kind, and the boundary, in quotes or not.
pub open spec fn multipart_type(kind: Seq<char>, boundary: Seq<char>, quoted: bool) -> Seq<char> {
    "multipart/"@ + kind + "; boundary="@ + (if quoted {
        seq!['"'] + boundary + seq!['"']
    } else {
        boundary
    })
}

/// A kind of message with parts: letters, and none that starts the name of the boundary.
pub open spec fn multipart_kind(kind: Seq<char>) -> bool {
    forall|i: int| 0 <= i < kind.len() ==> 'a' <= lower(#[trigger] kind[i]) <= 'z' && lower(kind[i])
        != 'b'
}

/// The fields declare a message with parts, in the field at `c`.
pub open spec fn declares_parts(
    fields: Seq<(Seq<char>, Seq<char>)>,
    kind: Seq<char>,
    boundary: Seq<char>,
    quoted: bool,
    c: int,
) -> bool {
    &&& proper_fields(fields)
    &&& proper_boundary(boundary)
    &&& multipart_kind(kind)
    &&& first_field(fields, "content-type"@, c)
    &&& fields[c].1 == multipart_type(kind, boundary, quoted)
}

pub proof fn lemma_multipart_type(kind: Seq<char>, boundary: Seq<char>, quoted: bool)
    requires
        proper_boundary(boundary),
        multipart_kind(kind),
    ensures
        ({
            let ct = multipart_type(kind, boundary, quoted);
            &&& param(ct, "boundary"@) == Some(boundary)
            &&& within(lower_case(ct), "multipart/"@)
        }),
{
    reveal_strlit("multipart/");
    reveal_strlit("; boundary=");
    reveal_strlit("boundary");
    let ct = multipart_type(kind, boundary, quoted);
    let value = if quoted {
        seq!['"'] + boundary + seq!['"']
    } else {
        boundary
    };
    let before = "multipart/"@ + kind + seq![';', ' '];
    assert(ct =~= before + "boundary"@ + seq!['='] + value);
    let n = kind.len() as int;
    assert forall|i: int| 0 <= i < before.len() implies lower(#[trigger] before[i]) != lower(
        "boundary"@[0],
    ) by {
        if 10 <= i < 10 + n {
            assert(before[i] == kind[i - 10]);
            assert(lower(kind[i - 10]) != 'b');
        }
    }
    parameters_are_found(before, "boundary"@, "boundary"@, value);
    assert forall|i: int| 0 <= i < boundary.len() implies #[trigger] boundary[i] != ';'
        && !is_ascii_space(boundary[i]) && boundary[i] != '"' by {
        assert('!' <= boundary[i] <= '~');
    }
    parameter_values_are_read(boundary, seq![]);
    assert(!boundary.contains('"'));
    if quoted {
        assert(value + Seq::<char>::empty() =~= value);
    } else {
        assert(boundary + Seq::<char>::empty() =~= boundary);
    }
    assert forall|i: int| 0 <= i < value.len() implies '\0' <= #[trigger] value[i] <= '\u{7f}' by {
        if quoted {
            if 0 < i < value.len() - 1 {
                assert(value[i] == boundary[i - 1]);
                assert('!' <= boundary[i - 1] <= '~');
            }
        } else {
            assert('!' <= boundary[i] <= '~');
        }
    }
    assert forall|i: int| 0 <= i < ct.len() implies '\0' <= #[trigger] ct[i] <= '\u{7f}' by {
        if i >= 10 && i < 10 + n {
            assert(ct[i] == kind[i - 10]);
            assert('a' <= lower(kind[i - 10]) <= 'z');
        } else if i >= 21 + n {
            assert(ct[i] == value[i - 21 - n]);
        }
    }
    assert(is_ascii_chars(ct));
    let low = ascii_lower(ct);
    assert(low.subrange(0, 10) =~= "multipart/"@);
    assert(occurs(low, "multipart/"@, 0));
}

/// A part with this header and this text.
pub open spec fn part_text(fields: Seq<(Seq<char>, Seq<char>)>, x: Seq<char>) -> Seq<char> {
    written_head(fields) + seq!['\r', '\n', '\r', '\n'] + x
}

pub proof fn lemma_part_text(fields: Seq<(Seq<char>, Seq<char>)>, x: Seq<char>)
    ensures
        encode_utf8(part_text(fields, x)) == written_mail(fields, encode_utf8(x)),
{
    let head = written_head(fields);
    let nl = seq!['\r', '\n'];
    let gap = seq!['\r', '\n', '\r', '\n'];
    assert(gap =~= nl + nl);
    lemma_encode_concat(nl, nl);
    lemma_newline();
    assert(encode_utf8(gap) =~= seq![13u8, 10u8, 13u8, 10u8]);
    lemma_encode_concat(head, gap);
    lemma_encode_concat(head + gap, x);
}

/// A text part: a header that declares a text in UTF-8 and a transfer encoding, and the text in it.
pub open spec fn is_text_part(
    fields: Seq<(Seq<char>, Seq<char>)>,
    html: bool,
    x: Seq<char>,
    t: Seq<char>,
) -> bool {
    &&& proper_fields(fields)
    &&& exists|label: Seq<char>, c: int| #[trigger] declares_text(fields, html, label, c)
    &&& exists|coding: Coding, e: int|
        #[trigger] declares_coding(fields, coding, e) && carries(
            coding,
            encode_utf8(x),
            encode_utf8(t),
        )
}

proof fn lemma_text_found(
    f: Found,
    fields: Seq<(Seq<char>, Seq<char>)>,
    html: bool,
    x: Seq<char>,
    t: Seq<char>,
)
    requires
        is_text_part(fields, html, x, t),
        html ==> f.html is None,
        !html ==> f.text is None,
    ensures
        ({
            let part = encode_utf8(part_text(fields, x));
            let g = if html {
                Found { html: Some(t), ..f }
            } else {
                Found { text: Some(t), ..f }
            };
            found_outer(f, part) == g && found_leaf(f, part) == g
        }),
{
    let (label, c) = choose|label: Seq<char>, c: int|
        #[trigger] declares_text(fields, html, label, c);
    let (coding, e) = choose|coding: Coding, e: int|
        #[trigger] declares_coding(fields, coding, e) && carries(
            coding,
            encode_utf8(x),
            encode_utf8(t),
        );
    lemma_part_text(fields, x);
    lemma_text_part(f, fields, html, label, c, coding, e, encode_utf8(x), t);
    lemma_text_type(html, label);
}

/// A plain text part is what is shown of a message, in whatever transfer encoding it comes: where
/// it is the first part, whatever parts follow it, and where an HTML part comes before it.
#[verifier::rlimit(60)]
#[verifier::spinoff_prover]
pub proof fn a_plain_part_is_shown(
    outer: Seq<(Seq<char>, Seq<char>)>,
    kind: Seq<char>,
    boundary: Seq<char>,
    quoted: bool,
    c: int,
    html_fields: Seq<(Seq<char>, Seq<char>)>,
    hx: Seq<char>,
    ht: Seq<char>,
    fields: Seq<(Seq<char>, Seq<char>)>,
    x: Seq<char>,
    t: Seq<char>,
    rest: Seq<Seq<char>>,
    tail: Seq<char>,
)
    requires
        declares_parts(outer, kind, boundary, quoted, c),
        is_text_part(html_fields, true, hx, ht),
        is_text_part(fields, false, x, t),
        !blank(t),
        fits(part_text(html_fields, hx), boundary),
        fits(part_text(fields, x), boundary),
        forall|i: int| 0 <= i < rest.len() ==> fits(#[trigger] rest[i], boundary),
    ensures
        mail_of(
            written_mail(
                outer,
                encode_utf8(
                    multipart_text(seq![part_text(fields, x)] + rest, boundary, tail),
                ),
            ),
        ).body == cleaned(t),
        mail_of(
            written_mail(
                outer,
                encode_utf8(
                    multipart_text(
                        seq![part_text(html_fields, hx), part_text(fields, x)] + rest,
                        boundary,
                        tail,
                    ),
                ),
            ),
        ).body == cleaned(t),
{
    let p = part_text(fields, x);
    let q = part_text(html_fields, hx);
    let one = seq![p] + rest;
    let two = seq![q, p] + rest;
    assert forall|i: int| 0 <= i < one.len() implies fits(#[trigger] one[i], boundary) by {
        if i > 0 {
            assert(one[i] == rest[i - 1]);
        }
    }
    assert forall|i: int| 0 <= i < two.len() implies fits(#[trigger] two[i], boundary) by {
        if i > 1 {
            assert(two[i] == rest[i - 2]);
        }
    }
    lemma_message_parts(outer, kind, boundary, quoted, c, one, tail);
    lemma_message_parts(outer, kind, boundary, quoted, c, two, tail);
    let none = nothing_found();
    let e = encoded_parts(rest);
    assert(encoded_parts(one) =~= seq![encode_utf8(p)] + e);
    assert(encoded_parts(two) =~= seq![encode_utf8(q)] + (seq![encode_utf8(p)] + e));
    lemma_found_concat(none, seq![encode_utf8(p)], e);
    lemma_text_found(none, fields, false, x, t);
    lemma_one_outer(none, encode_utf8(p));
    lemma_text_stays(found_outer(none, encode_utf8(p)), e);
    lemma_text_found(none, html_fields, true, hx, ht);
    lemma_one_outer(none, encode_utf8(q));
    let g = found_outer(none, encode_utf8(q));
    lemma_found_concat(none, seq![encode_utf8(q)], seq![encode_utf8(p)] + e);
    lemma_found_concat(g, seq![encode_utf8(p)], e);
    lemma_text_found(g, fields, false, x, t);
    lemma_one_outer(g, encode_utf8(p));
    lemma_text_stays(found_outer(g, encode_utf8(p)), e);
}

/// Where an HTML part is all that there is, its text is shown.
pub proof fn an_html_part_is_shown(
    outer: Seq<(Seq<char>, Seq<char>)>,
    kind: Seq<char>,
    boundary: Seq<char>,
    quoted: bool,
    c: int,
    fields: Seq<(Seq<char>, Seq<char>)>,
    x: Seq<char>,
    t: Seq<char>,
    tail: Seq<char>,
)
    requires
        declares_parts(outer, kind, boundary, quoted, c),
        is_text_part(fields, true, x, t),
        !blank(t),
        fits(part_text(fields, x), boundary),
    ensures
        mail_of(
            written_mail(
                outer,
                encode_utf8(multipart_text(seq![part_text(fields, x)], boundary, tail)),
            ),
        ).body == html_text(t),
{
    let p = part_text(fields, x);
    let none = nothing_found();
    lemma_message_parts(outer, kind, boundary, quoted, c, seq![p], tail);
    assert(encoded_parts(seq![p]) =~= seq![encode_utf8(p)]);
    lemma_text_found(none, fields, true, x, t);
    lemma_one_outer(none, encode_utf8(p));
}

/// A plain text part of a part that has parts of its own is shown too.
pub proof fn a_nested_part_is_shown(
    outer: Seq<(Seq<char>, Seq<char>)>,
    kind: Seq<char>,
    boundary: Seq<char>,
    quoted: bool,
    c: int,
    inner: Seq<(Seq<char>, Seq<char>)>,
    inner_kind: Seq<char>,
    inner_boundary: Seq<char>,
    inner_quoted: bool,
    inner_c: int,
    inner_e: int,
    fields: Seq<(Seq<char>, Seq<char>)>,
    x: Seq<char>,
    t: Seq<char>,
    inner_rest: Seq<Seq<char>>,
    inner_tail: Seq<char>,
    rest: Seq<Seq<char>>,
    tail: Seq<char>,
)
    requires
        declares_parts(outer, kind, boundary, quoted, c),
        declares_parts(inner, inner_kind, inner_boundary, inner_quoted, inner_c),
        declares_coding(inner, Coding::Plain, inner_e),
        is_text_part(fields, false, x, t),
        !blank(t),
        fits(part_text(fields, x), inner_boundary),
        forall|i: int| 0 <= i < inner_rest.len() ==> fits(#[trigger] inner_rest[i], inner_boundary),
        fits(
            part_text(
                inner,
                multipart_text(
                    seq![part_text(fields, x)] + inner_rest,
                    inner_boundary,
                    inner_tail,
                ),
            ),
            boundary,
        ),
        forall|i: int| 0 <= i < rest.len() ==> fits(#[trigger] rest[i], boundary),
    ensures
        mail_of(
            written_mail(
                outer,
                encode_utf8(
                    multipart_text(
                        seq![
                            part_text(
                                inner,
                                multipart_text(
                                    seq![part_text(fields, x)] + inner_rest,
                                    inner_boundary,
                                    inner_tail,
                                ),
                            ),
                        ] + rest,
                        boundary,
                        tail,
                    ),
                ),
            ),
        ).body == cleaned(t),
{
    let p = part_text(fields, x);
    let leaves = seq![p] + inner_rest;
    let inside = multipart_text(leaves, inner_boundary, inner_tail);
    let q = part_text(inner, inside);
    let all = seq![q] + rest;
    assert forall|i: int| 0 <= i < all.len() implies fits(#[trigger] all[i], boundary) by {
        if i > 0 {
            assert(all[i] == rest[i - 1]);
        }
    }
    assert forall|i: int| 0 <= i < leaves.len() implies fits(
        #[trigger] leaves[i],
        inner_boundary,
    ) by {
        if i > 0 {
            assert(leaves[i] == inner_rest[i - 1]);
        }
    }
    let none = nothing_found();
    lemma_message_parts(outer, kind, boundary, quoted, c, all, tail);
    let e = encoded_parts(rest);
    assert(encoded_parts(all) =~= seq![encode_utf8(q)] + e);
    lemma_found_concat(none, seq![encode_utf8(q)], e);
    lemma_one_outer(none, encode_utf8(q));
    // The part that has parts of its own.
    lemma_part_text(inner, inside);
    a_written_mail_is_split(inner, encode_utf8(inside));
    written_fields_are_read(inner);
    the_first_field_counts(inner, "content-type"@, inner_c);
    lemma_multipart_type(inner_kind, inner_boundary, inner_quoted);
    lemma_transferred(inner, Coding::Plain, inner_e, encode_utf8(inside), encode_utf8(inside));
    parts_are_what_was_put_in(leaves, inner_boundary, inner_tail);
    let r = encoded_parts(inner_rest);
    assert(encoded_parts(leaves) =~= seq![encode_utf8(p)] + r);
    lemma_found_concat(none, seq![encode_utf8(p)], r);
    lemma_text_found(none, fields, false, x, t);
    lemma_one_leaf(none, encode_utf8(p));
    let g = found_leaf(none, encode_utf8(p));
    lemma_leaves_stay(g, r);
    assert(found_outer(none, encode_utf8(q)) == found_leaves(g, r));
    lemma_text_stays(found_outer(none, encode_utf8(q)), e);
}

/// The parts of a message are looked at one after the other.
pub proof fn lemma_message_parts(
    outer: Seq<(Seq<char>, Seq<char>)>,
    kind: Seq<char>,
    boundary: Seq<char>,
    quoted: bool,
    c: int,
    parts: Seq<Seq<char>>,
    tail: Seq<char>,
)
    requires
        declares_parts(outer, kind, boundary, quoted, c),
        parts.len() > 0,
        forall|i: int| 0 <= i < parts.len() ==> fits(#[trigger] parts[i], boundary),
    ensures
        mail_of(
            written_mail(outer, encode_utf8(multipart_text(parts, boundary, tail))),
        ).body == shown(found_all(nothing_found(), encoded_parts(parts))),
{
    let b = encode_utf8(multipart_text(parts, boundary, tail));
    a_written_mail_is_split(outer, b);
    written_fields_are_read(outer);
    the_first_field_counts(outer, "content-type"@, c);
    lemma_multipart_type(kind, boundary, quoted);
    parts_are_what_was_put_in(parts, boundary, tail);
    assert(encoded_parts(parts).len() > 0);
}

pub proof fn lemma_one_outer(f: Found, part: Seq<u8>)
    ensures
        found_all(f, seq![part]) == found_outer(f, part),
{
    let one = seq![part];
    assert(one.drop_last() =~= seq![]);
    assert(found_all(f, one.drop_last()) == f);
}

pub proof fn lemma_one_leaf(f: Found, part: Seq<u8>)
    ensures
        found_leaves(f, seq![part]) == found_leaf(f, part),
{
    let one = seq![part];
    assert(one.drop_last() =~= seq![]);
    assert(found_leaves(f, one.drop_last()) == f);
}

} // verus!
