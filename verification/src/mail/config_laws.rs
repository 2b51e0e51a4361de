//! Configuration files as they are written, and what is read of them.
use vstd::prelude::*;
use vstd::utf8::is_ascii_chars;

use crate::lines::{indentation, joined, lemma_split_once, lines_after_join, margin};
use crate::mail::config::{
    accounts_from, accounts_of, closed_account, comment_from, fresh_account, idle_line,
    inline_value, item_line, item_text, kept, key_line, keywords_of, notify_of, usable, value_of,
    with_line, words_listed, AccountView,
};
use crate::mail::interval::spaces;
use crate::mail::interval_laws::lemma_spaces;
use crate::number::{decimal, decimal_round_trip, lemma_decimal};
use crate::text::{
    ascii_lower, blank, is_ascii_space, is_space, lemma_blank, lemma_end_of, lemma_next_is,
    lemma_trimmed_is, prefixed, trimmed, trimmed_start, Class,
};
use crate::unicode::lower_case;

verus! {

// ───────────────────────── values ─────────────────────────

/// A value in quotes is what stands between them, whatever it holds, and whatever stands behind
/// it.
pub proof fn quoted_values_are_read(
    pad: Seq<char>,
    double: bool,
    value: Seq<char>,
    rest: Seq<char>,
)
    requires
        forall|i: int| 0 <= i < pad.len() ==> is_space(#[trigger] pad[i]),
        !value.contains(
            if double {
                '"'
            } else {
                '\''
            },
        ),
    ensures
        ({
            let q = if double {
                '"'
            } else {
                '\''
            };
            value_of(pad + seq![q] + value + seq![q] + rest) == value
        }),
{
    let q = if double {
        '"'
    } else {
        '\''
    };
    let raw = pad + seq![q] + value + seq![q] + rest;
    let a = pad.len() as int;
    let n = value.len() as int;
    assert forall|i: int| 0 <= i < a implies !Class::Ink.admits(#[trigger] raw[i]) by {
        assert(raw[i] == pad[i]);
    }
    assert(raw[a] == q);
    lemma_next_is(raw, Class::Ink, 0, a);
    let t = raw.subrange(a, raw.len() as int);
    assert(t =~= seq![q] + value + seq![q] + rest);
    lemma_end_of(t, Class::Ink);
    let e = crate::text::end_of(t, Class::Ink);
    assert(t[n + 1] == q);
    assert(Class::Ink.admits(t[n + 1]));
    assert(e >= n + 2);
    let v = t.subrange(0, e);
    assert(trimmed(raw) == v);
    assert(v[0] == q);
    assert forall|i: int| 1 <= i < n + 1 implies !Class::Is(q).admits(#[trigger] v[i]) by {
        assert(v[i] == value[i - 1]);
        assert(value.contains(value[i - 1]));
    }
    assert(v[n + 1] == q);
    lemma_next_is(v, Class::Is(q), 1, n + 1);
    assert(v.subrange(1, n + 1) =~= value);
}

/// A value that can stand without quotes: no quotation marks, no white space around it, and a `#`
/// only right behind something else.
pub open spec fn bare_value(value: Seq<char>) -> bool {
    &&& value.len() > 0
    &&& !is_space(value[0])
    &&& !is_space(value[value.len() - 1])
    &&& forall|i: int|
        0 <= i < value.len() ==> (#[trigger] value[i]) != '"' && value[i] != '\'' && (value[i]
            == '#' ==> i > 0 && !is_ascii_space(value[i - 1]))
}

/// There is no comment in what can stand without quotes.
proof fn lemma_no_comment(v: Seq<char>, value: Seq<char>, i: int)
    requires
        bare_value(value),
        prefixed(v, value),
        0 <= i <= value.len(),
    ensures
        comment_from(v, i, None) == comment_from(v, value.len() as int, None),
    decreases value.len() - i,
{
    if i < value.len() {
        assert(v.subrange(0, value.len() as int)[i] == v[i]);
        assert(v[i] == value[i]);
        if i > 0 {
            assert(v.subrange(0, value.len() as int)[i - 1] == v[i - 1]);
        }
        lemma_no_comment(v, value, i + 1);
    }
}

/// A value without quotes is read as it stands, without the white space around it and without the
/// comment behind it.
pub proof fn bare_values_are_read(pad: Seq<char>, value: Seq<char>, end: Seq<char>, note: Seq<char>)
    requires
        bare_value(value),
        forall|i: int| 0 <= i < pad.len() ==> is_space(#[trigger] pad[i]),
        forall|i: int| 0 <= i < end.len() ==> is_space(#[trigger] end[i]),
    ensures
        value_of(pad + value + end) == value,
        value_of(pad + value + end + seq![' ', '#'] + note) == value,
{
    let a = pad.len() as int;
    let b = a + value.len();
    let raw = pad + value + end;
    assert(raw[a] == value[0]);
    assert(raw[b - 1] == value[value.len() - 1]);
    assert forall|i: int| 0 <= i < a implies is_space(#[trigger] raw[i]) by {
        assert(raw[i] == pad[i]);
    }
    assert forall|i: int| b <= i < raw.len() implies is_space(#[trigger] raw[i]) by {
        assert(raw[i] == end[i - b]);
    }
    lemma_trimmed_is(raw, a, b);
    assert(raw.subrange(a, b) =~= value);
    assert(value.subrange(0, value.len() as int) =~= value);
    lemma_no_comment(value, value, 0);
    assert(value[0] != '"' && value[0] != '\'');
    lemma_trimmed_is(value, 0, value.len() as int);

    let long = pad + value + end + seq![' ', '#'] + note;
    assert(long[a] == value[0]);
    assert forall|i: int| 0 <= i < a implies !Class::Ink.admits(#[trigger] long[i]) by {
        assert(long[i] == pad[i]);
    }
    lemma_next_is(long, Class::Ink, 0, a);
    let t = long.subrange(a, long.len() as int);
    assert(t =~= value + end + seq![' ', '#'] + note);
    lemma_end_of(t, Class::Ink);
    let e = crate::text::end_of(t, Class::Ink);
    let k = (value.len() + end.len() + 1) as int;
    assert(t[k] == '#');
    assert(Class::Ink.admits(t[k]));
    assert(e > k);
    let v = t.subrange(0, e);
    assert(trimmed(long) == v);
    assert(v[0] == value[0]);
    assert(v.subrange(0, value.len() as int) =~= value);
    lemma_no_comment(v, value, 0);
    assert forall|i: int| value.len() <= i < k implies is_space(#[trigger] v[i]) by {
        if i < k - 1 {
            assert(v[i] == end[i - value.len()]);
        } else {
            assert(v[i] == ' ');
        }
    }
    lemma_comment_after_space(v, value.len() as int, k as int);
    let front = v.subrange(0, k as int);
    assert(front[0] == value[0]);
    assert(front[value.len() - 1] == value[value.len() - 1]);
    assert forall|i: int| value.len() <= i < front.len() implies is_space(#[trigger] front[i]) by {
        assert(front[i] == v[i]);
    }
    lemma_trimmed_is(front, 0, value.len() as int);
    assert(front.subrange(0, value.len() as int) =~= value);
}

proof fn lemma_comment_after_space(v: Seq<char>, i: int, k: int)
    requires
        0 <= i <= k < v.len(),
        0 < k,
        v[k] == '#',
        v[k - 1] == ' ',
        forall|j: int| i <= j < k ==> is_space(#[trigger] v[j]),
    ensures
        comment_from(v, i, None) == Some(k),
    decreases k - i,
{
    if i < k {
        assert(is_space(v[i]));
        lemma_comment_after_space(v, i + 1, k);
    }
}

// ───────────────────────── fields ─────────────────────────

/// A field with that name, and what is written as its value.
pub open spec fn field_line(name: Seq<char>, raw: Seq<char>) -> Seq<char> {
    name + seq![':'] + raw
}

proof fn lemma_field(acc: AccountView, name: Seq<char>, raw: Seq<char>)
    requires
        name.len() > 0,
        !name.contains(':'),
        !is_space(name[0]),
        !is_space(name[name.len() - 1]),
    ensures
        with_line(acc, field_line(name, raw)) == crate::mail::config::with_field(acc, name, raw),
{
    lemma_split_once(name, ':', raw);
    lemma_trimmed_is(name, 0, name.len() as int);
    assert(name.subrange(0, name.len() as int) =~= name);
}

/// The names of the fields can be told apart.
proof fn lemma_field_names()
    ensures
        ({
            let names = seq![
                "email"@,
                "label"@,
                "server"@,
                "port"@,
                "password"@,
                "poll_interval"@,
                "last_ok_interval"@,
            ];
            &&& forall|i: int, j: int| 0 <= i < j < 7 ==> #[trigger] names[i] != #[trigger] names[j]
            &&& forall|i: int|
                0 <= i < 7 ==> {
                    let n = #[trigger] names[i];
                    n.len() > 0 && !n.contains(':') && !is_space(n[0]) && !is_space(n[n.len() - 1])
                }
        }),
{
    reveal_strlit("email");
    reveal_strlit("label");
    reveal_strlit("server");
    reveal_strlit("port");
    reveal_strlit("password");
    reveal_strlit("poll_interval");
    reveal_strlit("last_ok_interval");
    assert("email"@[0] == 'e');
    assert("label"@[0] == 'l' && "label"@.len() == 5);
    assert("server"@[0] == 's');
    assert("port"@[0] == 'p' && "port"@.len() == 4);
    assert("password"@[0] == 'p' && "password"@.len() == 8);
    assert("poll_interval"@[0] == 'p' && "poll_interval"@.len() == 13);
    assert("last_ok_interval"@[0] == 'l' && "last_ok_interval"@.len() == 16);
}

/// Each field sets what it names to the value that is written, and nothing else. An empty label is
/// none.
pub proof fn fields_set_what_they_name(acc: AccountView, raw: Seq<char>)
    ensures
        with_line(acc, field_line("email"@, raw)) == (AccountView { email: value_of(raw), ..acc }),
        with_line(acc, field_line("server"@, raw)) == (AccountView {
            server: value_of(raw),
            ..acc
        }),
        with_line(acc, field_line("password"@, raw)) == (AccountView {
            password: value_of(raw),
            ..acc
        }),
        with_line(acc, field_line("label"@, raw)) == (AccountView {
            label: if value_of(raw).len() == 0 {
                None
            } else {
                Some(value_of(raw))
            },
            ..acc
        }),
{
    lemma_field_names();
    let names = seq![
        "email"@,
        "label"@,
        "server"@,
        "port"@,
        "password"@,
        "poll_interval"@,
        "last_ok_interval"@,
    ];
    assert(names[0] == "email"@ && names[1] == "label"@ && names[2] == "server"@ && names[4]
        == "password"@);
    assert(names[0] != names[1] && names[0] != names[2] && names[0] != names[4]);
    assert(names[1] != names[2] && names[1] != names[4] && names[2] != names[4]);
    assert(names[3] == "port"@ && names[3] != names[4]);
    lemma_field(acc, "email"@, raw);
    lemma_field(acc, "server"@, raw);
    lemma_field(acc, "password"@, raw);
    lemma_field(acc, "label"@, raw);
}

/// A number that is written is the one that is set, for the port as for the intervals; no polling
/// interval is shorter than a second, and what is no number changes nothing.
pub proof fn number_fields_set_what_they_name(acc: AccountView, raw: Seq<char>, n: nat)
    ensures
        value_of(raw) == decimal(n) && n <= 65535 ==> with_line(acc, field_line("port"@, raw)) == (
        AccountView { port: n as u16, ..acc }),
        value_of(raw) == decimal(n) && n <= u64::MAX ==> with_line(
            acc,
            field_line("poll_interval"@, raw),
        ) == (AccountView {
            poll_interval: if n == 0 {
                1
            } else {
                n as u64
            },
            ..acc
        }),
        value_of(raw) == decimal(n) && n <= u64::MAX ==> with_line(
            acc,
            field_line("last_ok_interval"@, raw),
        ) == (AccountView { last_ok_interval: Some(n as u64), ..acc }),
        value_of(raw).len() == 0 ==> {
            &&& with_line(acc, field_line("port"@, raw)) == acc
            &&& with_line(acc, field_line("poll_interval"@, raw)) == acc
            &&& with_line(acc, field_line("last_ok_interval"@, raw)) == acc
        },
{
    lemma_field_names();
    let names = seq![
        "email"@,
        "label"@,
        "server"@,
        "port"@,
        "password"@,
        "poll_interval"@,
        "last_ok_interval"@,
    ];
    assert(names[0] == "email"@ && names[1] == "label"@ && names[2] == "server"@ && names[3]
        == "port"@ && names[4] == "password"@ && names[5] == "poll_interval"@ && names[6]
        == "last_ok_interval"@);
    assert(names[0] != names[3] && names[1] != names[3] && names[2] != names[3]);
    assert(names[0] != names[5] && names[1] != names[5] && names[2] != names[5] && names[3]
        != names[5] && names[4] != names[5]);
    assert(names[0] != names[6] && names[1] != names[6] && names[2] != names[6] && names[3]
        != names[6] && names[4] != names[6] && names[5] != names[6]);
    lemma_field(acc, "port"@, raw);
    lemma_field(acc, "poll_interval"@, raw);
    lemma_field(acc, "last_ok_interval"@, raw);
    lemma_decimal(n);
    if n <= 65535 {
        decimal_round_trip(n, 65535);
    }
    if n <= u64::MAX {
        decimal_round_trip(n, u64::MAX as int);
    }
}

/// An account is read with the usual port, asked every half a minute, and without a label, where it
/// does not say otherwise.
pub proof fn accounts_start_from_the_usual()
    ensures
        fresh_account().port == 993,
        fresh_account().poll_interval == 30,
        fresh_account().label is None,
        fresh_account().last_ok_interval is None,
        !usable(fresh_account()),
{
}

// ───────────────────────── lists ─────────────────────────

/// A line of a list: indented by `n`, with an item behind a dash.
pub open spec fn item(n: nat, text: Seq<char>) -> Seq<char> {
    spaces(n) + seq!['-', ' '] + text
}

/// Spaces in front of a text are its indentation.
proof fn lemma_indented(n: nat, text: Seq<char>)
    requires
        text.len() > 0,
        !is_space(text[0]),
    ensures
        indentation(spaces(n) + text) == n,
        trimmed_start(spaces(n) + text) == text,
        !blank(spaces(n) + text),
{
    let s = spaces(n) + text;
    assert(s[n as int] == text[0]);
    assert forall|i: int| 0 <= i < n implies !Class::Ink.admits(#[trigger] s[i]) by {
        assert(s[i] == ' ');
    }
    lemma_next_is(s, Class::Ink, 0, n as int);
    lemma_spaces(n);
    assert(margin(s) =~= spaces(n));
    assert(s.subrange(n as int, s.len() as int) =~= text);
    assert(!is_space(s[n as int]));
}

proof fn lemma_item(n: nat, text: Seq<char>)
    ensures
        indentation(item(n, text)) == n,
        !idle_line(item(n, text)),
        item_line(item(n, text)),
        item_text(item(n, text)) == text,
{
    reveal_strlit("- ");
    let t = seq!['-', ' '] + text;
    assert(item(n, text) =~= spaces(n) + t);
    lemma_indented(n, t);
    assert(t.subrange(0, 2) =~= "- "@);
    assert(t.subrange(2, t.len() as int) =~= text);
}

/// A line that says something at the top level, which ends a list.
pub open spec fn top_line(s: Seq<char>) -> bool {
    s.len() > 0 && !is_space(s[0]) && s[0] != '#'
}

proof fn lemma_top_line(s: Seq<char>)
    requires
        top_line(s),
    ensures
        !idle_line(s),
        indentation(s) == 0,
{
    assert(spaces(0) + s =~= s);
    lemma_indented(0, s);
}

/// What follows a list: nothing, or a line at the top level and anything.
pub open spec fn list_ends(after: Seq<Seq<char>>) -> bool {
    after.len() > 0 ==> top_line(after[0])
}

/// The items of a list, each indented by `n`.
pub open spec fn items(n: nat, raws: Seq<Seq<char>>) -> Seq<Seq<char>> {
    Seq::new(raws.len(), |i: int| item(n, raws[i]))
}

/// The values that are written.
pub open spec fn values_of(raws: Seq<Seq<char>>) -> Seq<Seq<char>> {
    Seq::new(raws.len(), |i: int| value_of(raws[i]))
}

proof fn lemma_words(
    before: Seq<Seq<char>>,
    n: nat,
    raws: Seq<Seq<char>>,
    after: Seq<Seq<char>>,
    k: int,
    at: Option<nat>,
)
    requires
        n > 0,
        forall|i: int| 0 <= i < raws.len() ==> value_of(#[trigger] raws[i]).len() > 0,
        list_ends(after),
        0 <= k <= raws.len(),
        at matches Some(m) ==> m == n,
    ensures
        words_listed(before + items(n, raws) + after, before.len() + k, at) == values_of(
            raws,
        ).subrange(k, raws.len() as int),
    decreases raws.len() - k,
{
    let lines = before + items(n, raws) + after;
    let i = before.len() + k;
    let all = values_of(raws);
    if k < raws.len() {
        assert(lines[i] == item(n, raws[k]));
        lemma_item(n, raws[k]);
        lemma_words(before, n, raws, after, k + 1, Some(n));
        assert(value_of(raws[k]).len() > 0);
        assert(seq![all[k]] + all.subrange(k + 1, raws.len() as int) =~= all.subrange(
            k,
            raws.len() as int,
        ));
    } else {
        if after.len() > 0 {
            assert(lines[i] == after[0]);
            lemma_top_line(after[0]);
        }
        assert(all.subrange(k, raws.len() as int) =~= seq![]);
    }
}

/// Lines that can stand in a file.
pub open spec fn proper_lines(lines: Seq<Seq<char>>) -> bool {
    &&& lines.len() > 0
    &&& lines.last().len() > 0
    &&& forall|i: int|
        0 <= i < lines.len() ==> !(#[trigger] lines[i]).contains('\n') && (lines[i].len() > 0
            ==> lines[i].last() != '\r')
}

/// A file with these lines.
pub open spec fn file_of(lines: Seq<Seq<char>>, cr: bool) -> Seq<char> {
    joined(
        lines,
        if cr {
            seq!['\r', '\n']
        } else {
            seq!['\n']
        },
    )
}

proof fn lemma_key_line(before: Seq<Seq<char>>, line: Seq<char>, after: Seq<Seq<char>>, key: Seq<
    char,
>, i: int)
    requires
        forall|j: int| 0 <= j < before.len() ==> !prefixed(#[trigger] before[j], key),
        prefixed(line, key),
        0 <= i <= before.len(),
    ensures
        key_line(before.push(line) + after, key, i) == Some(before.len() as int),
    decreases before.len() - i,
{
    let all = before.push(line) + after;
    if i < before.len() {
        assert(all[i] == before[i]);
        lemma_key_line(before, line, after, key, i + 1);
    } else {
        assert(all[i] == line);
    }
}

proof fn lemma_no_key_line(lines: Seq<Seq<char>>, key: Seq<char>, i: int)
    requires
        forall|j: int| 0 <= j < lines.len() ==> !prefixed(#[trigger] lines[j], key),
        0 <= i,
    ensures
        key_line(lines, key, i) is None,
    decreases lines.len() - i,
{
    if i < lines.len() {
        lemma_no_key_line(lines, key, i + 1);
    }
}

/// The keywords that are listed are the keywords that are read, each as its value is written,
/// whatever stands around the list.
pub proof fn listed_keywords_are_read(
    before: Seq<Seq<char>>,
    tail: Seq<char>,
    n: nat,
    raws: Seq<Seq<char>>,
    after: Seq<Seq<char>>,
    cr: bool,
)
    requires
        n > 0,
        blank(tail),
        forall|j: int| 0 <= j < before.len() ==> !prefixed(#[trigger] before[j], "match_keywords:"@),
        forall|i: int| 0 <= i < raws.len() ==> value_of(#[trigger] raws[i]).len() > 0,
        list_ends(after),
        proper_lines(before.push("match_keywords:"@ + tail) + items(n, raws) + after),
    ensures
        keywords_of(
            file_of(before.push("match_keywords:"@ + tail) + items(n, raws) + after, cr),
        ) == Some(values_of(raws)),
{
    let key = "match_keywords:"@;
    let line = key + tail;
    let head = before.push(line);
    let lines = head + items(n, raws) + after;
    lines_after_join(lines, cr);
    assert(lines =~= head + (items(n, raws) + after));
    assert(line.subrange(0, key.len() as int) =~= key);
    lemma_key_line(before, line, items(n, raws) + after, key, 0);
    assert(lines[before.len() as int] == line);
    assert(line.subrange(key.len() as int, line.len() as int) =~= tail);
    lemma_blank(tail);
    reveal_strlit("[]");
    assert(trimmed(tail).len() == 0);
    lemma_words(head, n, raws, after, 0, None);
    assert(values_of(raws).subrange(0, raws.len() as int) =~= values_of(raws));
}

/// The value behind a key, with white space around it.
proof fn lemma_inline_value(key: Seq<char>, pad: Seq<char>, word: Seq<char>, end: Seq<char>)
    requires
        forall|i: int| 0 <= i < pad.len() ==> is_space(#[trigger] pad[i]),
        forall|i: int| 0 <= i < end.len() ==> is_space(#[trigger] end[i]),
        word.len() > 0,
        !is_space(word[0]),
        !is_space(word[word.len() - 1]),
    ensures
        prefixed(key + pad + word + end, key),
        inline_value(key + pad + word + end, key) == word,
        trimmed(word) == word,
{
    let tail = pad + word + end;
    let line = key + pad + word + end;
    assert(line =~= key + tail);
    assert(line.subrange(0, key.len() as int) =~= key);
    assert(line.subrange(key.len() as int, line.len() as int) =~= tail);
    let a = pad.len() as int;
    let b = a + word.len();
    assert(tail[a] == word[0]);
    assert(tail[b - 1] == word[word.len() - 1]);
    assert forall|i: int| 0 <= i < a implies is_space(#[trigger] tail[i]) by {
        assert(tail[i] == pad[i]);
    }
    assert forall|i: int| b <= i < tail.len() implies is_space(#[trigger] tail[i]) by {
        assert(tail[i] == end[i - b]);
    }
    lemma_trimmed_is(tail, a, b);
    assert(tail.subrange(a, b) =~= word);
    lemma_trimmed_is(word, 0, word.len() as int);
    assert(word.subrange(0, word.len() as int) =~= word);
}

/// The switch says yes where its word is one of the words for yes, in any case, and no otherwise.
#[verifier::spinoff_prover]
pub proof fn the_switch_is_read(
    before: Seq<Seq<char>>,
    pad: Seq<char>,
    word: Seq<char>,
    end: Seq<char>,
    after: Seq<Seq<char>>,
    cr: bool,
)
    requires
        forall|j: int|
            0 <= j < before.len() ==> !prefixed(#[trigger] before[j], "notify_unmatched:"@),
        forall|i: int| 0 <= i < pad.len() ==> is_space(#[trigger] pad[i]),
        forall|i: int| 0 <= i < end.len() ==> is_space(#[trigger] end[i]),
        word.len() > 0,
        is_ascii_chars(word),
        !is_space(word[0]),
        !is_space(word[word.len() - 1]),
        proper_lines(before.push("notify_unmatched:"@ + pad + word + end) + after),
    ensures
        notify_of(
            file_of(before.push("notify_unmatched:"@ + pad + word + end) + after, cr),
        ) == Some(
            {
                let low = ascii_lower(word);
                low == "true"@ || low == "yes"@ || low == "on"@ || low == "1"@
            },
        ),
{
    let key = "notify_unmatched:"@;
    let line = key + pad + word + end;
    let lines = before.push(line) + after;
    lines_after_join(lines, cr);
    lemma_inline_value(key, pad, word, end);
    lemma_key_line(before, line, after, key, 0);
    assert(lines[before.len() as int] == line);
    assert(lower_case(word) == ascii_lower(word));
}

/// Where the switch is missing, nothing is said.
pub proof fn a_missing_switch_says_nothing(lines: Seq<Seq<char>>, cr: bool)
    requires
        forall|j: int|
            0 <= j < lines.len() ==> !prefixed(#[trigger] lines[j], "notify_unmatched:"@),
        proper_lines(lines),
    ensures
        notify_of(file_of(lines, cr)) is None,
{
    lines_after_join(lines, cr);
    lemma_no_key_line(lines, "notify_unmatched:"@, 0);
}

/// Where the list is said to be empty, no keywords are read.
pub proof fn an_empty_list_has_no_keywords(
    before: Seq<Seq<char>>,
    pad: Seq<char>,
    end: Seq<char>,
    after: Seq<Seq<char>>,
    cr: bool,
)
    requires
        forall|j: int| 0 <= j < before.len() ==> !prefixed(#[trigger] before[j], "match_keywords:"@),
        forall|i: int| 0 <= i < pad.len() ==> is_space(#[trigger] pad[i]),
        forall|i: int| 0 <= i < end.len() ==> is_space(#[trigger] end[i]),
        proper_lines(before.push("match_keywords:"@ + pad + "[]"@ + end) + after),
    ensures
        keywords_of(
            file_of(before.push("match_keywords:"@ + pad + "[]"@ + end) + after, cr),
        ) == Some(Seq::<Seq<char>>::empty()),
{
    let key = "match_keywords:"@;
    reveal_strlit("[]");
    let line = key + pad + "[]"@ + end;
    let lines = before.push(line) + after;
    lines_after_join(lines, cr);
    lemma_inline_value(key, pad, "[]"@, end);
    lemma_key_line(before, line, after, key, 0);
    assert(lines[before.len() as int] == line);
}

/// Where the list is missing, there are no keywords to speak of.
pub proof fn a_missing_list_has_no_keywords(lines: Seq<Seq<char>>, cr: bool)
    requires
        forall|j: int| 0 <= j < lines.len() ==> !prefixed(#[trigger] lines[j], "match_keywords:"@),
        proper_lines(lines),
    ensures
        keywords_of(file_of(lines, cr)) is None,
{
    lines_after_join(lines, cr);
    lemma_no_key_line(lines, "match_keywords:"@, 0);
}

// ───────────────────────── accounts ─────────────────────────

/// An account with these fields, set in this order.
pub open spec fn with_fields(acc: AccountView, fields: Seq<Seq<char>>) -> AccountView
    decreases fields.len(),
{
    if fields.len() == 0 {
        acc
    } else {
        with_line(with_fields(acc, fields.drop_last()), fields.last())
    }
}

/// A field that can stand on a line of its own.
pub open spec fn proper_field(f: Seq<char>) -> bool {
    &&& f.len() > 0
    &&& !is_space(f[0])
    &&& f[0] != '#'
    &&& f[0] != '-'
}

/// The lines of an account whose item is indented by `n` and whose other fields by `m`.
pub open spec fn account_lines(n: nat, m: nat, fields: Seq<Seq<char>>) -> Seq<Seq<char>> {
    Seq::new(
        fields.len(),
        |i: int|
            if i == 0 {
                item(n, fields[0])
            } else {
                spaces(m) + fields[i]
            },
    )
}

/// The lines of accounts, one after the other.
pub open spec fn all_account_lines(n: nat, m: nat, accounts: Seq<Seq<Seq<char>>>) -> Seq<Seq<char>>
    decreases accounts.len(),
{
    if accounts.len() == 0 {
        seq![]
    } else {
        account_lines(n, m, accounts[0]) + all_account_lines(n, m, accounts.drop_first())
    }
}

/// The accounts that are usable, in order.
pub open spec fn usable_accounts(accounts: Seq<Seq<Seq<char>>>) -> Seq<AccountView>
    decreases accounts.len(),
{
    if accounts.len() == 0 {
        seq![]
    } else {
        let acc = with_fields(fresh_account(), accounts[0]);
        (if acc.server.len() > 0 && acc.password.len() > 0 {
            seq![acc]
        } else {
            seq![]
        }) + usable_accounts(accounts.drop_first())
    }
}

/// Accounts that can be written: each has a field, and its fields can stand on lines of their own.
pub open spec fn proper_accounts(accounts: Seq<Seq<Seq<char>>>) -> bool {
    forall|i: int|
        0 <= i < accounts.len() ==> (#[trigger] accounts[i]).len() > 0 && forall|k: int|
            0 < k < accounts[i].len() ==> proper_field(#[trigger] accounts[i][k])
}

proof fn lemma_field_line(m: nat, f: Seq<char>)
    requires
        proper_field(f),
    ensures
        indentation(spaces(m) + f) == m,
        !idle_line(spaces(m) + f),
        !item_line(spaces(m) + f),
        trimmed_start(spaces(m) + f) == f,
{
    reveal_strlit("- ");
    lemma_indented(m, f);
    if prefixed(f, "- "@) {
        assert(f.subrange(0, 2)[0] == '-');
    }
}

/// The fields of an account from the field `k` on are set one after the other.
proof fn lemma_fields(
    before: Seq<Seq<char>>,
    n: nat,
    m: nat,
    fields: Seq<Seq<char>>,
    after: Seq<Seq<char>>,
    k: int,
)
    requires
        0 < n < m,
        1 <= k <= fields.len(),
        forall|j: int| 0 < j < fields.len() ==> proper_field(#[trigger] fields[j]),
    ensures
        ({
            let lines = before + account_lines(n, m, fields) + after;
            accounts_from(
                lines,
                before.len() + k,
                Some((n, with_fields(fresh_account(), fields.take(k)))),
            ) == accounts_from(
                lines,
                (before.len() + fields.len()) as int,
                Some((n, with_fields(fresh_account(), fields))),
            )
        }),
    decreases fields.len() - k,
{
    let lines = before + account_lines(n, m, fields) + after;
    if k < fields.len() {
        let line = lines[before.len() + k];
        assert(line == spaces(m) + fields[k]);
        lemma_field_line(m, fields[k]);
        assert(fields.take(k + 1).drop_last() =~= fields.take(k));
        assert(fields.take(k + 1).last() == fields[k]);
        lemma_fields(before, n, m, fields, after, k + 1);
    } else {
        assert(fields.take(k) =~= fields);
    }
}

proof fn lemma_accounts(
    before: Seq<Seq<char>>,
    n: nat,
    m: nat,
    accounts: Seq<Seq<Seq<char>>>,
    after: Seq<Seq<char>>,
    open: Option<(nat, AccountView)>,
)
    requires
        0 < n < m,
        proper_accounts(accounts),
        list_ends(after),
        open matches Some((at, acc)) ==> at == n,
    ensures
        accounts_from(
            before + all_account_lines(n, m, accounts) + after,
            before.len() as int,
            open,
        ) == closed_account(open) + usable_accounts(accounts),
    decreases accounts.len(),
{
    let lines = before + all_account_lines(n, m, accounts) + after;
    let b = before.len() as int;
    if accounts.len() == 0 {
        assert(lines =~= before + after);
        if after.len() > 0 {
            assert(lines[b] == after[0]);
            lemma_top_line(after[0]);
        }
        assert(closed_account(open) + usable_accounts(accounts) =~= closed_account(open));
    } else {
        let fields = accounts[0];
        let more = accounts.drop_first();
        let mine = account_lines(n, m, fields);
        let rest = all_account_lines(n, m, more) + after;
        assert(lines =~= before + mine + rest);
        assert(lines[b] == item(n, fields[0]));
        lemma_item(n, fields[0]);
        let acc = with_fields(fresh_account(), fields);
        assert(fields.take(1).drop_last() =~= seq![]);
        assert(fields.take(1).last() == fields[0]);
        reveal_with_fuel(with_fields, 2);
        assert(with_fields(fresh_account(), fields.take(1)) == with_line(
            fresh_account(),
            fields[0],
        ));
        assert forall|j: int| 0 < j < fields.len() implies proper_field(#[trigger] fields[j]) by {
            assert(proper_field(accounts[0][j]));
        }
        lemma_fields(before, n, m, fields, rest, 1);
        assert forall|i: int| 0 <= i < more.len() implies (#[trigger] more[i]).len() > 0 && forall|
            k: int,
        |
            0 < k < more[i].len() ==> proper_field(#[trigger] more[i][k]) by {
            assert(more[i] == accounts[i + 1]);
        }
        let front = before + mine;
        assert(lines =~= front + all_account_lines(n, m, more) + after);
        assert(front.len() == b + fields.len());
        lemma_accounts(front, n, m, more, after, Some((n, acc)));
        assert(closed_account(Some((n, acc))) == kept(acc));
        assert(usable_accounts(accounts) =~= kept(acc) + usable_accounts(more));
    }
}

/// The accounts that are listed are the accounts that are read, in order, each with its fields,
/// whatever stands around the list; but for those without a server or a password.
pub proof fn listed_accounts_are_read(
    before: Seq<Seq<char>>,
    tail: Seq<char>,
    n: nat,
    m: nat,
    accounts: Seq<Seq<Seq<char>>>,
    after: Seq<Seq<char>>,
    cr: bool,
)
    requires
        0 < n < m,
        forall|j: int| 0 <= j < before.len() ==> !prefixed(#[trigger] before[j], "accounts:"@),
        proper_accounts(accounts),
        list_ends(after),
        proper_lines(
            before.push("accounts:"@ + tail) + all_account_lines(n, m, accounts) + after,
        ),
    ensures
        accounts_of(
            file_of(
                before.push("accounts:"@ + tail) + all_account_lines(n, m, accounts) + after,
                cr,
            ),
        ) == usable_accounts(accounts),
{
    let key = "accounts:"@;
    let line = key + tail;
    let head = before.push(line);
    let block = all_account_lines(n, m, accounts);
    let lines = head + block + after;
    lines_after_join(lines, cr);
    assert(lines =~= head + (block + after));
    assert(line.subrange(0, key.len() as int) =~= key);
    lemma_key_line(before, line, block + after, key, 0);
    lemma_accounts(head, n, m, accounts, after, None);
    assert(closed_account(None) + usable_accounts(accounts) =~= usable_accounts(accounts));
}

// ───────────────────────── comments ─────────────────────────

/// A line with nothing but white space, or with a comment.
pub open spec fn says_nothing(line: Seq<char>) -> bool {
    blank(line) || exists|i: int|
        0 <= i < line.len() && #[trigger] line[i] == '#' && forall|j: int|
            0 <= j < i ==> is_space(#[trigger] line[j])
}

proof fn lemma_says_nothing(line: Seq<char>)
    requires
        says_nothing(line),
    ensures
        idle_line(line),
{
    if !blank(line) {
        let i = choose|i: int|
            0 <= i < line.len() && #[trigger] line[i] == '#' && forall|j: int|
                0 <= j < i ==> is_space(#[trigger] line[j]);
        lemma_next_is(line, Class::Ink, 0, i);
        assert(trimmed_start(line)[0] == line[i]);
    }
}

proof fn lemma_accounts_insert(
    lines: Seq<Seq<char>>,
    k: int,
    line: Seq<char>,
    i: int,
    open: Option<(nat, AccountView)>,
)
    requires
        0 <= i <= lines.len(),
        0 <= k <= lines.len(),
        says_nothing(line),
    ensures
        i <= k ==> accounts_from(lines.insert(k, line), i, open) == accounts_from(lines, i, open),
        i >= k ==> accounts_from(lines.insert(k, line), i + 1, open) == accounts_from(
            lines,
            i,
            open,
        ),
    decreases lines.len() - i,
{
    let t = lines.insert(k, line);
    lemma_says_nothing(line);
    if i < lines.len() {
        let l = lines[i];
        let n = indentation(l);
        if i < k {
            assert(t[i] == l);
        } else {
            assert(t[i + 1] == l);
        }
        lemma_accounts_insert(lines, k, line, i + 1, open);
        lemma_accounts_insert(
            lines,
            k,
            line,
            i + 1,
            Some((n, with_line(fresh_account(), item_text(l)))),
        );
        if let Some((at, acc)) = open {
            lemma_accounts_insert(
                lines,
                k,
                line,
                i + 1,
                Some((at, with_line(acc, trimmed_start(l)))),
            );
        }
    }
    if i >= k {
        assert(accounts_from(t, i + 1, open) == accounts_from(lines, i, open));
    }
    if i == k {
        assert(t[k] == line);
        assert(accounts_from(t, k, open) == accounts_from(t, k + 1, open));
    }
}

proof fn lemma_words_insert(
    lines: Seq<Seq<char>>,
    k: int,
    line: Seq<char>,
    i: int,
    at: Option<nat>,
)
    requires
        0 <= i <= lines.len(),
        0 <= k <= lines.len(),
        says_nothing(line),
    ensures
        i <= k ==> words_listed(lines.insert(k, line), i, at) == words_listed(lines, i, at),
        i >= k ==> words_listed(lines.insert(k, line), i + 1, at) == words_listed(lines, i, at),
    decreases lines.len() - i,
{
    let t = lines.insert(k, line);
    lemma_says_nothing(line);
    if i < lines.len() {
        let l = lines[i];
        if i < k {
            assert(t[i] == l);
        } else {
            assert(t[i + 1] == l);
        }
        lemma_words_insert(lines, k, line, i + 1, at);
        lemma_words_insert(lines, k, line, i + 1, Some(indentation(l)));
    }
    if i >= k {
        assert(words_listed(t, i + 1, at) == words_listed(lines, i, at));
    }
    if i == k {
        assert(t[k] == line);
        assert(words_listed(t, k, at) == words_listed(t, k + 1, at));
    }
}

proof fn lemma_key_insert(lines: Seq<Seq<char>>, k: int, line: Seq<char>, key: Seq<char>, i: int)
    requires
        0 <= i <= lines.len(),
        0 <= k <= lines.len(),
        !prefixed(line, key),
    ensures
        ({
            let moved = match key_line(lines, key, i) {
                Some(j) => Some(
                    if j < k {
                        j
                    } else {
                        j + 1
                    },
                ),
                None => None,
            };
            &&& i <= k ==> key_line(lines.insert(k, line), key, i) == moved
            &&& i >= k ==> key_line(lines.insert(k, line), key, i + 1) == moved
        }),
        key_line(lines, key, i) matches Some(j) ==> i <= j < lines.len(),
    decreases lines.len() - i,
{
    let t = lines.insert(k, line);
    if i < lines.len() {
        if i < k {
            assert(t[i] == lines[i]);
        } else {
            assert(t[i + 1] == lines[i]);
        }
        lemma_key_insert(lines, k, line, key, i + 1);
    }
    if i == k {
        assert(t[k] == line);
    }
}

/// A line that says nothing names no key.
proof fn lemma_names_no_key(line: Seq<char>, key: Seq<char>)
    requires
        says_nothing(line),
        key.len() > 0,
        !is_space(key[0]),
        key[0] != '#',
    ensures
        !prefixed(line, key),
{
    if prefixed(line, key) {
        assert(line.subrange(0, key.len() as int)[0] == line[0]);
        assert(line[0] == key[0]);
        if !blank(line) {
            let i = choose|i: int|
                0 <= i < line.len() && #[trigger] line[i] == '#' && forall|j: int|
                    0 <= j < i ==> is_space(#[trigger] line[j]);
            if i > 0 {
                assert(is_space(line[0]));
            }
        } else {
            assert(is_space(line[0]));
        }
    }
}

/// Comments and blank lines may stand anywhere: they change neither the keywords nor the switch nor
/// the accounts.
pub proof fn comments_change_nothing(lines: Seq<Seq<char>>, k: int, line: Seq<char>, cr: bool)
    requires
        0 <= k <= lines.len(),
        says_nothing(line),
        proper_lines(lines),
        proper_lines(lines.insert(k, line)),
    ensures
        keywords_of(file_of(lines.insert(k, line), cr)) == keywords_of(file_of(lines, cr)),
        notify_of(file_of(lines.insert(k, line), cr)) == notify_of(file_of(lines, cr)),
        accounts_of(file_of(lines.insert(k, line), cr)) == accounts_of(file_of(lines, cr)),
{
    let t = lines.insert(k, line);
    lines_after_join(lines, cr);
    lines_after_join(t, cr);
    reveal_strlit("match_keywords:");
    reveal_strlit("notify_unmatched:");
    reveal_strlit("accounts:");
    lemma_names_no_key(line, "match_keywords:"@);
    lemma_names_no_key(line, "notify_unmatched:"@);
    lemma_names_no_key(line, "accounts:"@);
    lemma_key_insert(lines, k, line, "match_keywords:"@, 0);
    lemma_key_insert(lines, k, line, "notify_unmatched:"@, 0);
    lemma_key_insert(lines, k, line, "accounts:"@, 0);
    assert(k == 0 ==> t[0] == line);
    lemma_first_key(t, line, "match_keywords:"@);
    lemma_first_key(t, line, "notify_unmatched:"@);
    lemma_first_key(t, line, "accounts:"@);
    if let Some(j) = key_line(lines, "match_keywords:"@, 0) {
        lemma_words_insert(lines, k, line, j + 1, None);
    }
    if let Some(j) = key_line(lines, "accounts:"@, 0) {
        lemma_accounts_insert(lines, k, line, j + 1, None);
    }
}

/// A first line that does not name the key is passed over.
proof fn lemma_first_key(t: Seq<Seq<char>>, line: Seq<char>, key: Seq<char>)
    requires
        !prefixed(line, key),
    ensures
        t.len() > 0 && t[0] == line ==> key_line(t, key, 0) == key_line(t, key, 1),
{
}

// ───────────────────────── deeper lists ─────────────────────────

/// An item that is indented further than those of its list is none of them: it may stand behind any
/// of them, and changes nothing, neither among keywords nor among accounts.
pub proof fn deeper_items_are_passed_over(
    lines: Seq<Seq<char>>,
    k: int,
    n: nat,
    m: nat,
    text: Seq<char>,
    i: int,
    acc: AccountView,
)
    requires
        0 <= i <= k <= lines.len(),
        0 < n < m,
    ensures
        words_listed(lines.insert(k, item(m, text)), i, Some(n)) == words_listed(lines, i, Some(n)),
        accounts_from(lines.insert(k, item(m, text)), i, Some((n, acc))) == accounts_from(
            lines,
            i,
            Some((n, acc)),
        ),
    decreases lines.len() - i,
{
    let line = item(m, text);
    let t = lines.insert(k, line);
    lemma_item(m, text);
    if i == k {
        assert(t[k] == line);
        lemma_behind_insert(lines, k, line, k, Some(n), Some((n, acc)));
        assert(words_listed(t, k, Some(n)) == words_listed(t, k + 1, Some(n)));
        assert(accounts_from(t, k, Some((n, acc))) == accounts_from(t, k + 1, Some((n, acc))));
    } else {
        let l = lines[i];
        assert(t[i] == l);
        deeper_items_are_passed_over(lines, k, n, m, text, i + 1, acc);
        deeper_items_are_passed_over(
            lines,
            k,
            n,
            m,
            text,
            i + 1,
            with_line(fresh_account(), item_text(l)),
        );
        deeper_items_are_passed_over(
            lines,
            k,
            n,
            m,
            text,
            i + 1,
            with_line(acc, trimmed_start(l)),
        );
    }
}

/// What stands behind a line that was put in is read as before.
proof fn lemma_behind_insert(
    lines: Seq<Seq<char>>,
    k: int,
    line: Seq<char>,
    i: int,
    at: Option<nat>,
    open: Option<(nat, AccountView)>,
)
    requires
        0 <= k <= i <= lines.len(),
    ensures
        words_listed(lines.insert(k, line), i + 1, at) == words_listed(lines, i, at),
        accounts_from(lines.insert(k, line), i + 1, open) == accounts_from(lines, i, open),
    decreases lines.len() - i,
{
    let t = lines.insert(k, line);
    if i < lines.len() {
        let l = lines[i];
        let n = indentation(l);
        assert(t[i + 1] == l);
        let begun = Some((n, with_line(fresh_account(), item_text(l))));
        lemma_behind_insert(lines, k, line, i + 1, at, open);
        lemma_behind_insert(lines, k, line, i + 1, Some(n), begun);
        if let Some((m, acc)) = open {
            lemma_behind_insert(
                lines,
                k,
                line,
                i + 1,
                at,
                Some((m, with_line(acc, trimmed_start(l)))),
            );
        }
    }
}

/// What starts with a `#` is a comment, and no value.
pub proof fn a_comment_is_no_value(pad: Seq<char>, note: Seq<char>)
    requires
        forall|i: int| 0 <= i < pad.len() ==> is_space(#[trigger] pad[i]),
    ensures
        value_of(pad + seq!['#'] + note) == Seq::<char>::empty(),
{
    let raw = pad + seq!['#'] + note;
    let a = pad.len() as int;
    assert forall|i: int| 0 <= i < a implies !Class::Ink.admits(#[trigger] raw[i]) by {
        assert(raw[i] == pad[i]);
    }
    assert(raw[a] == '#');
    lemma_next_is(raw, Class::Ink, 0, a);
    let t = raw.subrange(a, raw.len() as int);
    lemma_end_of(t, Class::Ink);
    let e = crate::text::end_of(t, Class::Ink);
    assert(t[0] == '#');
    assert(Class::Ink.admits(t[0]));
    assert(e > 0);
    let v = t.subrange(0, e);
    assert(trimmed(raw) == v);
    assert(v[0] == '#');
    assert(comment_from(v, 0, None) == Some(0int));
    let none = v.subrange(0, 0);
    assert(none =~= Seq::<char>::empty());
    lemma_blank(none);
    assert(trimmed(none) =~= Seq::<char>::empty());
}

/// An item that is indented less ends a list, and so does a line that is no item and not indented
/// further. Before the first item, lines that are no items are passed over.
pub proof fn shallower_lines_end_a_list(
    lines: Seq<Seq<char>>,
    i: int,
    n: nat,
    m: nat,
    text: Seq<char>,
    f: Seq<char>,
    acc: AccountView,
)
    requires
        0 <= i < lines.len(),
        0 < m,
        proper_field(f),
    ensures
        lines[i] == item(m, text) && m < n ==> {
            &&& words_listed(lines, i, Some(n)) == Seq::<Seq<char>>::empty()
            &&& accounts_from(lines, i, Some((n, acc))) == closed_account(Some((n, acc)))
        },
        lines[i] == spaces(m) + f && m <= n ==> {
            &&& words_listed(lines, i, Some(n)) == Seq::<Seq<char>>::empty()
            &&& accounts_from(lines, i, Some((n, acc))) == closed_account(Some((n, acc)))
        },
        lines[i] == spaces(m) + f ==> {
            &&& words_listed(lines, i, None) == words_listed(lines, i + 1, None)
            &&& accounts_from(lines, i, None) == accounts_from(lines, i + 1, None)
        },
{
    lemma_item(m, text);
    lemma_field_line(m, f);
}

} // verus!
