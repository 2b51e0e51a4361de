//! Texts in any character set, and messages with any number of parts.
use vstd::prelude::*;
use vstd::utf8::{encode_utf8, is_ascii_chars};

use crate::lines::{lemma_encode_concat, lemma_no_byte};
use crate::mail::charset::{charset_text, label_word, labels_name_character_sets, latin1};
use crate::mail::html::{cleaned, html_text};
use crate::mail::html_laws::only_blank_texts_vanish;
use crate::mail::mail_laws::{
    carries, declares_coding, declares_parts, delimiters_are_seen, encoded_parts, fits, lemma_fits,
    lemma_multipart_type, lemma_newline, lemma_no_param, lemma_one_leaf, lemma_one_outer,
    lemma_transferred, multipart_kind, multipart_text, parameter_values_are_read,
    parameters_are_found, parts_are_what_was_put_in, proper_boundary, text_type, Coding,
};
use crate::mail::message::{
    found_all, found_leaf, found_leaves, found_outer, lemma_found_concat, mail_of, nothing_found,
    shown, Found,
};
use crate::mail::mime::{
    lemma_line_end_is, lemma_plain_lines, multipart, param, param_place, param_value, parts_from,
    the_preamble_is_ignored,
};
use crate::mail::words::header_text;
use crate::mail::written::{
    a_written_mail_is_split, first_field, no_field_before, proper_fields, the_first_field_counts,
    written_fields_are_read, written_mail,
};
use crate::text::{
    ascii_lower, blank, found, is_ascii_space, is_space, lemma_found, lemma_next_is, lower, occurs,
    occurs_ci, trimmed, within, Class,
};
use crate::unicode::lower_case;

verus! {

// ───────────────────────── character sets ─────────────────────────

/// A label that can stand in a content type without quotes.
pub open spec fn plain_label(label: Seq<char>) -> bool {
    &&& label_word(label)
    &&& is_ascii_chars(label)
    &&& forall|i: int|
        0 <= i < label.len() ==> (#[trigger] label[i]) != ';' && label[i] != '=' && label[i] != '/'
}

/// The fields declare a text in that character set, plain or HTML, in the field at `c`.
pub open spec fn declares_text_in(
    fields: Seq<(Seq<char>, Seq<char>)>,
    html: bool,
    label: Seq<char>,
    c: int,
) -> bool {
    &&& proper_fields(fields)
    &&& first_field(fields, "content-type"@, c)
    &&& plain_label(label)
    &&& fields[c].1 == text_type(html, label)
}

/// A parameter whose name ends otherwise than that of the only parameter is not there.
proof fn lemma_one_param(s: Seq<char>, key: Seq<char>, at: int, from: int)
    requires
        0 <= from,
        key.len() > 1,
        key.last() == '=',
        0 < at < s.len(),
        forall|i: int| 0 <= i < s.len() && i != at ==> #[trigger] s[i] != '=',
        lower(s[at - 1]) != lower(key[key.len() - 2]),
    ensures
        found(s, key, from) is None,
        param_place(s, key, from) is None,
    decreases s.len() - from + 1,
{
    let m = key.len() as int;
    lemma_found(s, key, from);
    if let Some(i) = found(s, key, from) {
        let t = s.subrange(i, i + m);
        assert(t[m - 1] == s[i + m - 1]);
        assert(t[m - 2] == s[i + m - 2]);
        assert(i + m - 1 == at);
    }
    if from + m <= s.len() {
        if occurs_ci(s, key, from) {
            let low = ascii_lower(s);
            let t = low.subrange(from, from + m);
            assert(t[m - 1] == low[from + m - 1]);
            assert(t[m - 2] == low[from + m - 2]);
            assert(ascii_lower(key)[m - 1] == lower(key[m - 1]));
            assert(ascii_lower(key)[m - 2] == lower(key[m - 2]));
            assert(lower(s[from + m - 1]) == '=');
            assert(s[from + m - 1] == '=');
            assert(from + m - 1 == at);
        }
        lemma_one_param(s, key, at, from + 1);
    }
}

/// What the content type of a text in any character set says.
proof fn lemma_type_of_text(html: bool, label: Seq<char>)
    requires
        plain_label(label),
    ensures
        ({
            let ct = text_type(html, label);
            &&& lower_case(ct) == text_type(html, ascii_lower(label))
            &&& param(ct, "boundary"@) is None
            &&& param(ct, "charset"@) == Some(label)
            &&& within(lower_case(ct), "text/html"@) == html
            &&& within(lower_case(ct), "text/plain"@) == !html
            &&& !within(lower_case(ct), "multipart/"@)
        }),
{
    reveal_strlit("text/html; charset=");
    reveal_strlit("text/plain; charset=");
    reveal_strlit("text/html");
    reveal_strlit("text/plain");
    reveal_strlit("multipart/");
    reveal_strlit("boundary");
    reveal_strlit("charset");
    let ct = text_type(html, label);
    let kind = if html {
        "text/html; charset="@
    } else {
        "text/plain; charset="@
    };
    let n = kind.len() as int;
    assert forall|i: int| 0 <= i < ct.len() implies '\0' <= #[trigger] ct[i] <= '\u{7f}' by {
        if i >= n {
            assert(ct[i] == label[i - n]);
        }
    }
    assert(is_ascii_chars(ct));
    let low = ascii_lower(ct);
    assert(low =~= text_type(html, ascii_lower(label)));
    // The only parameter is the charset.
    assert forall|i: int| 0 <= i < ct.len() && i != n - 1 implies #[trigger] ct[i] != '=' by {
        if i >= n {
            assert(ct[i] == label[i - n]);
        } else {
            assert(ct[i] == kind[i]);
        }
    }
    let key = "boundary"@.push('=');
    assert(key[key.len() - 2] == 'y');
    assert(ct[n - 2] == 't');
    lemma_one_param(ct, key, n - 1, 0);
    let before = kind.subrange(0, n - 8);
    assert(ct =~= before + "charset"@ + seq!['='] + label);
    assert forall|i: int| 0 <= i < before.len() implies lower(#[trigger] before[i]) != lower(
        "charset"@[0],
    ) by {
        assert(before[i] == kind[i]);
    }
    parameters_are_found(before, "charset"@, "charset"@, label);
    assert forall|i: int| 0 <= i < label.len() implies #[trigger] label[i] != ';'
        && !is_ascii_space(label[i]) && label[i] != '"' by {
        assert(!is_space(label[i]));
    }
    parameter_values_are_read(label, seq![]);
    assert(label + Seq::<char>::empty() =~= label);
    // The only slash is that of the type.
    assert forall|i: int| 0 <= i < low.len() && i != 4 implies #[trigger] low[i] != '/' by {
        if i >= n {
            assert(ct[i] == label[i - n]);
        } else {
            assert(ct[i] == kind[i]);
        }
    }
    if html {
        assert(low.subrange(0, 9) =~= "text/html"@);
        assert(occurs(low, "text/html"@, 0));
    } else {
        assert(low.subrange(0, 10) =~= "text/plain"@);
        assert(occurs(low, "text/plain"@, 0));
    }
    if within(low, "text/html"@) {
        let i = choose|i: int| occurs(low, "text/html"@, i);
        let t = low.subrange(i, i + 9);
        assert(t[4] == low[i + 4]);
        assert(i == 0);
        assert(t[5] == low[5]);
    }
    if within(low, "text/plain"@) {
        let i = choose|i: int| occurs(low, "text/plain"@, i);
        let t = low.subrange(i, i + 10);
        assert(t[4] == low[i + 4]);
        assert(i == 0);
        assert(t[5] == low[5]);
    }
    if within(low, "multipart/"@) {
        let i = choose|i: int| occurs(low, "multipart/"@, i);
        assert(low.subrange(i, i + 10)[9] == low[i + 9]);
    }
}

/// A label means the same in small letters.
proof fn lemma_small_label(label: Seq<char>, b: Seq<u8>)
    requires
        plain_label(label),
    ensures
        plain_label(ascii_lower(label)),
        charset_text(b, Some(ascii_lower(label))) == charset_text(b, Some(label)),
{
    let low = ascii_lower(label);
    assert forall|i: int| 0 <= i < low.len() implies '\0' <= #[trigger] low[i] <= '\u{7f}'
        && !is_space(low[i]) && low[i] != '"' && low[i] != ';' && low[i] != '=' && low[i]
        != '/' by {
        assert(low[i] == lower(label[i]));
        assert('\0' <= label[i] <= '\u{7f}');
        assert(!is_space(label[i]));
    }
    assert(is_ascii_chars(low));
    let none = Seq::<char>::empty();
    labels_name_character_sets(none, false, label, none);
    labels_name_character_sets(none, false, low, none);
    assert(none + none + label + none + none =~= label);
    assert(none + none + low + none + none =~= low);
    assert(ascii_lower(low) =~= low);
}

/// A mail with one text is read in the character set that it declares, whichever that is, in any
/// transfer encoding, plain or HTML.
pub proof fn a_mail_is_read_in_its_character_set(
    fields: Seq<(Seq<char>, Seq<char>)>,
    html: bool,
    label: Seq<char>,
    c: int,
    coding: Coding,
    e: int,
    s: Seq<u8>,
    b: Seq<u8>,
)
    requires
        declares_text_in(fields, html, label, c),
        declares_coding(fields, coding, e),
        carries(coding, s, b),
        html ==> !blank(charset_text(b, Some(label))),
    ensures
        mail_of(written_mail(fields, s)).body == (if html {
            html_text(charset_text(b, Some(label)))
        } else {
            cleaned(charset_text(b, Some(label)))
        }),
{
    let t = charset_text(b, Some(label));
    a_written_mail_is_split(fields, s);
    written_fields_are_read(fields);
    the_first_field_counts(fields, "content-type"@, c);
    lemma_transferred(fields, coding, e, s, b);
    lemma_type_of_text(html, label);
    only_blank_texts_vanish(t);
    if blank(t) {
        assert(cleaned(t) =~= seq![]);
    }
}

/// A part with a text is read in the character set that it declares, as a part of the message and
/// as a part of a part, where no such text has been found before it.
pub proof fn a_part_is_read_in_its_character_set(
    f: Found,
    fields: Seq<(Seq<char>, Seq<char>)>,
    html: bool,
    label: Seq<char>,
    c: int,
    coding: Coding,
    e: int,
    s: Seq<u8>,
    b: Seq<u8>,
)
    requires
        declares_text_in(fields, html, label, c),
        declares_coding(fields, coding, e),
        carries(coding, s, b),
        html ==> f.html is None,
        !html ==> f.text is None,
    ensures
        ({
            let t = charset_text(b, Some(label));
            let g = if html {
                Found { text: f.text, html: Some(t), other: f.other }
            } else {
                Found { text: Some(t), html: f.html, other: f.other }
            };
            &&& found_outer(f, written_mail(fields, s)) == g
            &&& found_leaf(f, written_mail(fields, s)) == g
        }),
{
    a_written_mail_is_split(fields, s);
    written_fields_are_read(fields);
    the_first_field_counts(fields, "content-type"@, c);
    lemma_transferred(fields, coding, e, s, b);
    lemma_type_of_text(html, label);
    lemma_small_label(label, b);
    lemma_type_of_text(html, ascii_lower(label));
}

// ───────────────────────── parts ─────────────────────────

/// The parts of a message are looked at one after the other, and so are the parts of a part: what
/// the first ones bring is what the others start from, however many there are.
pub proof fn parts_are_looked_at_in_turn(
    f: Found,
    a: Seq<Seq<u8>>,
    part: Seq<u8>,
    b: Seq<Seq<u8>>,
)
    ensures
        found_all(f, a + seq![part] + b) == found_all(found_outer(found_all(f, a), part), b),
        found_leaves(f, a + seq![part] + b) == found_leaves(
            found_leaf(found_leaves(f, a), part),
            b,
        ),
        found_all(f, Seq::empty()) == f,
        found_leaves(f, Seq::empty()) == f,
{
    lemma_found_concat(f, a + seq![part], b);
    lemma_found_concat(f, a, seq![part]);
    lemma_one_outer(found_all(f, a), part);
    lemma_one_leaf(found_leaves(f, a), part);
}

/// A part that has parts of its own is taken apart at its own boundary, in whatever transfer encoding
/// it comes: each of its parts is looked at.
pub proof fn a_part_with_parts_is_taken_apart(
    f: Found,
    inner: Seq<(Seq<char>, Seq<char>)>,
    kind: Seq<char>,
    boundary: Seq<char>,
    quoted: bool,
    c: int,
    coding: Coding,
    e: int,
    leaves: Seq<Seq<char>>,
    tail: Seq<char>,
    s: Seq<u8>,
)
    requires
        declares_parts(inner, kind, boundary, quoted, c),
        declares_coding(inner, coding, e),
        forall|i: int| 0 <= i < leaves.len() ==> fits(#[trigger] leaves[i], boundary),
        carries(coding, s, encode_utf8(multipart_text(leaves, boundary, tail))),
    ensures
        found_outer(f, written_mail(inner, s)) == found_leaves(f, encoded_parts(leaves)),
{
    a_written_mail_is_split(inner, s);
    written_fields_are_read(inner);
    the_first_field_counts(inner, "content-type"@, c);
    lemma_multipart_type(kind, boundary, quoted);
    lemma_transferred(inner, coding, e, s, encode_utf8(multipart_text(leaves, boundary, tail)));
    parts_are_what_was_put_in(leaves, boundary, tail);
}

/// A message with parts is taken apart at its boundary, and what is shown of it is what its parts
/// bring.
pub proof fn a_message_with_parts_is_taken_apart(
    outer: Seq<(Seq<char>, Seq<char>)>,
    kind: Seq<char>,
    boundary: Seq<char>,
    quoted: bool,
    c: int,
    parts: Seq<Seq<char>>,
    tail: Seq<char>,
)
    requires
        declares_parts(outer, kind, boundary, quoted, c),
        parts.len() > 0,
        forall|i: int| 0 <= i < parts.len() ==> fits(#[trigger] parts[i], boundary),
    ensures
        mail_of(
            written_mail(outer, encode_utf8(multipart_text(parts, boundary, tail))),
        ).body == shown(found_all(nothing_found(), encoded_parts(parts))),
{
    crate::mail::mail_laws::lemma_message_parts(outer, kind, boundary, quoted, c, parts, tail);
}

/// Lines before the first delimiter are no part, and where no delimiter comes there is none.
pub proof fn lines_before_the_parts_do_not_count(x: Seq<char>, b: Seq<u8>, boundary: Seq<char>)
    requires
        fits(x, boundary),
    ensures
        multipart(encode_utf8(x) + b, boundary) == multipart(b, boundary),
        multipart(encode_utf8(x), boundary).len() == 0,
{
    lemma_fits(x, boundary);
    the_preamble_is_ignored(encode_utf8(x), b, boundary);
    the_preamble_is_ignored(encode_utf8(x), seq![], boundary);
    assert(encode_utf8(x) + Seq::<u8>::empty() =~= encode_utf8(x));
}

/// The last part reaches to the end of a body that is not closed, and a delimiter may end with a
/// newline alone.
pub proof fn the_last_part_may_be_open(part: Seq<char>, boundary: Seq<char>, cr: bool)
    requires
        proper_boundary(boundary),
        fits(part, boundary),
    ensures
        ({
            let end = if cr {
                seq!['\r', '\n']
            } else {
                seq!['\n']
            };
            multipart(encode_utf8(seq!['-', '-'] + boundary + end + part), boundary) == seq![
                encode_utf8(part),
            ]
        }),
{
    let ret = if cr {
        seq!['\r']
    } else {
        Seq::<char>::empty()
    };
    let end = if cr {
        seq!['\r', '\n']
    } else {
        seq!['\n']
    };
    let line = seq!['-', '-'] + boundary + ret;
    let text = seq!['-', '-'] + boundary + end + part;
    assert(text =~= line + seq!['\n'] + part);
    lemma_encode_concat(line, seq!['\n']);
    lemma_encode_concat(line + seq!['\n'], part);
    lemma_newline();
    let l = encode_utf8(line);
    let p = encode_utf8(part);
    let d = l + seq![10u8];
    let b = encode_utf8(text);
    assert(b =~= d + p);
    assert(!line.contains('\n')) by {
        assert forall|i: int| 0 <= i < line.len() implies #[trigger] line[i] != '\n' by {
            if 2 <= i < 2 + boundary.len() {
                assert(line[i] == boundary[i - 2]);
            }
        }
    }
    lemma_no_byte(line, '\n');
    let j = l.len() as int;
    assert forall|i: int| 0 <= i < j implies #[trigger] b[i] != 10 by {
        assert(b[i] == l[i]);
    }
    assert(b[j] == 10);
    lemma_line_end_is(b, 0, j);
    assert(b.subrange(0, j) =~= l);
    delimiters_are_seen(boundary, boundary, ret, seq![]);
    let m = j + 1;
    lemma_fits(part, boundary);
    let none = Seq::<u8>::empty();
    lemma_plain_lines(d, p, none, boundary, 0, Some(m));
    assert(d + p + none =~= b);
    assert(b.subrange(m, b.len() as int) =~= p);
    assert(parts_from(b, boundary, b.len() as int, Some(m)) =~= seq![p]);
    assert(parts_from(b, boundary, m, Some(m)) == seq![p]);
    assert(parts_from(b, boundary, 0, None) =~= seq![p]);
}

/// A mail that declares a boundary which nothing is delimited with is read as a whole.
pub proof fn a_mail_without_its_parts_is_read_as_a_whole(
    outer: Seq<(Seq<char>, Seq<char>)>,
    kind: Seq<char>,
    boundary: Seq<char>,
    quoted: bool,
    c: int,
    x: Seq<char>,
)
    requires
        declares_parts(outer, kind, boundary, quoted, c),
        fits(x, boundary),
        x.len() > 0,
    ensures
        ({
            let b = encode_utf8(x);
            let ct = outer[c].1;
            !within(lower_case(ct), "text/html"@) ==> mail_of(written_mail(outer, b)).body
                == cleaned(charset_text(b, param(ct, "charset"@)))
        }),
{
    let b = encode_utf8(x);
    a_written_mail_is_split(outer, b);
    written_fields_are_read(outer);
    the_first_field_counts(outer, "content-type"@, c);
    lemma_multipart_type(kind, boundary, quoted);
    lines_before_the_parts_do_not_count(x, seq![], boundary);
    let t = charset_text(b, param(outer[c].1, "charset"@));
    only_blank_texts_vanish(t);
    if blank(t) {
        assert(cleaned(t) =~= seq![]);
    }
}

/// A mail that declares no type is one plain text, in Chinese where it is not ASCII, and what it does
/// not say is empty.
pub proof fn a_mail_without_a_type_is_plain_text(
    fields: Seq<(Seq<char>, Seq<char>)>,
    coding: Coding,
    e: int,
    s: Seq<u8>,
    b: Seq<u8>,
)
    requires
        proper_fields(fields),
        no_field_before(fields, "content-type"@, fields.len() as int),
        declares_coding(fields, coding, e),
        carries(coding, s, b),
    ensures
        mail_of(written_mail(fields, s)).body == cleaned(charset_text(b, None)),
        no_field_before(fields, "subject"@, fields.len() as int) ==> mail_of(
            written_mail(fields, s),
        ).subject.len() == 0,
        no_field_before(fields, "from"@, fields.len() as int) ==> mail_of(
            written_mail(fields, s),
        ).from.len() == 0,
{
    let none = Seq::<char>::empty();
    a_written_mail_is_split(fields, s);
    written_fields_are_read(fields);
    the_first_field_counts(fields, "content-type"@, 0);
    the_first_field_counts(fields, "subject"@, 0);
    the_first_field_counts(fields, "from"@, 0);
    lemma_transferred(fields, coding, e, s, b);
    reveal_strlit("text/html");
    reveal_strlit("boundary");
    reveal_strlit("charset");
    assert(is_ascii_chars(none));
    assert(lower_case(none) =~= none);
    assert(param(none, "boundary"@) is None);
    assert(param(none, "charset"@) is None);
    assert(!within(none, "text/html"@));
    assert(trimmed(none) =~= none);
    assert(header_text(none) =~= none);
    let t = charset_text(b, None);
    only_blank_texts_vanish(t);
    if blank(t) {
        assert(cleaned(t) =~= seq![]);
    }
}

/// A kind of message with parts whose name cannot be taken for a parameter or a type of text.
pub open spec fn plain_kind(kind: Seq<char>) -> bool {
    &&& multipart_kind(kind)
    &&& forall|i: int|
        0 <= i < kind.len() ==> lower(#[trigger] kind[i]) != 'h' && lower(kind[i]) != 'c'
}

proof fn lemma_multipart_alone(kind: Seq<char>)
    requires
        plain_kind(kind),
    ensures
        ({
            let ct = "multipart/"@ + kind;
            let low = lower_case(ct);
            &&& within(low, "multipart/"@)
            &&& param(ct, "boundary"@) is None
            &&& param(low, "charset"@) is None
            &&& !within(low, "text/html"@)
            &&& !within(low, "text/plain"@)
        }),
{
    reveal_strlit("multipart/");
    reveal_strlit("boundary");
    reveal_strlit("charset");
    reveal_strlit("text/plain");
    reveal_strlit("text/html");
    let ct = "multipart/"@ + kind;
    assert forall|i: int| 0 <= i < ct.len() implies '\0' <= #[trigger] ct[i] <= '\u{7f}'
        && lower(ct[i]) != 'b' && lower(ct[i]) != 'h' && lower(ct[i]) != 'c' && (i > 9
        ==> lower(ct[i]) != '/') by {
        if i >= 10 {
            assert(ct[i] == kind[i - 10]);
        }
    }
    assert(is_ascii_chars(ct));
    let low = ascii_lower(ct);
    assert(lower_case(ct) == low);
    assert(low.subrange(0, 10) =~= "multipart/"@);
    assert(occurs(low, "multipart/"@, 0));
    lemma_no_param(ct, "boundary"@);
    assert forall|i: int| 0 <= i < low.len() implies lower(#[trigger] low[i]) != lower(
        "charset"@[0],
    ) by {
        assert(low[i] == lower(ct[i]));
    }
    lemma_no_param(low, "charset"@);
    if within(low, "text/html"@) {
        let i = choose|i: int| occurs(low, "text/html"@, i);
        assert(low.subrange(i, i + 9)[5] == low[i + 5]);
        assert(low[i + 5] == lower(ct[i + 5]));
    }
    if within(low, "text/plain"@) {
        let i = choose|i: int| occurs(low, "text/plain"@, i);
        let t = low.subrange(i, i + 10);
        assert(t[4] == low[i + 4]);
        assert(low[i + 4] == lower(ct[i + 4]));
        assert(i + 4 == 9);
        assert(t[2] == low[7]);
        assert(low[7] == 'r');
    }
}

/// A part that is said to have parts, and does not say where they end, is one text.
#[verifier::spinoff_prover]
pub proof fn a_part_without_its_boundary_is_plain_text(
    fields: Seq<(Seq<char>, Seq<char>)>,
    kind: Seq<char>,
    c: int,
    coding: Coding,
    e: int,
    s: Seq<u8>,
    b: Seq<u8>,
)
    requires
        proper_fields(fields),
        first_field(fields, "content-type"@, c),
        plain_kind(kind),
        fields[c].1 == "multipart/"@ + kind,
        declares_coding(fields, coding, e),
        carries(coding, s, b),
        !blank(charset_text(b, None)),
    ensures
        found_outer(nothing_found(), written_mail(fields, s)) == (Found {
            text: Some(charset_text(b, None)),
            html: None,
            other: None,
        }),
{
    a_written_mail_is_split(fields, s);
    written_fields_are_read(fields);
    the_first_field_counts(fields, "content-type"@, c);
    lemma_transferred(fields, coding, e, s, b);
    lemma_multipart_alone(kind);
    assert(b.len() > 0) by {
        if b.len() == 0 {
            assert(latin1(b) =~= seq![]);
            assert(blank(charset_text(b, None)));
        }
    }
}

/// A quote that is not closed is part of the value, which then ends as one without quotes does.
pub proof fn an_open_quote_is_part_of_the_value(value: Seq<char>, after: Seq<char>)
    requires
        forall|i: int|
            0 <= i < value.len() ==> #[trigger] value[i] != ';' && !is_ascii_space(value[i])
                && value[i] != '"',
        after.len() > 0 ==> after[0] == ';' || is_ascii_space(after[0]),
        !after.contains('"'),
    ensures
        param_value(seq!['"'] + value + after) == seq!['"'] + value,
{
    let s = seq!['"'] + value + after;
    let n = value.len() as int + 1;
    assert forall|i: int| 1 <= i < s.len() implies !Class::Is('"').admits(#[trigger] s[i]) by {
        if i < n {
            assert(s[i] == value[i - 1]);
        } else {
            assert(s[i] == after[i - n]);
            assert(after.contains(after[i - n]));
        }
    }
    lemma_next_is(s, Class::Is('"'), 1, s.len() as int);
    assert forall|i: int| 0 <= i < n implies !Class::ParamEnd.admits(#[trigger] s[i]) by {
        if i > 0 {
            assert(s[i] == value[i - 1]);
        }
    }
    if after.len() > 0 {
        assert(s[n] == after[0]);
    }
    lemma_next_is(s, Class::ParamEnd, 0, n);
    assert(s.subrange(0, n) =~= seq!['"'] + value);
}

} // verus!
