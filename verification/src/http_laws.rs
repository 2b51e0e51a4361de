//! Requests as they are sent, and what becomes of them.
use vstd::prelude::*;
use vstd::utf8::{
    encode_scalar, encode_utf8, encode_utf8_decode_utf8, encode_utf8_valid_utf8, is_ascii_chars,
    is_ascii_chars_encode_utf8,
};

use crate::http::{
    help_text, lemma_percent_behind, lemma_percent_encoded, lemma_root_is_no_log_path, length_after,
    param_text, path_and_query, percent_encoded, percent_from, percent_round_trip, percent_text,
    reason, response_head, served, url_form, value_in, word_or, Site,
};
use crate::lines::{
    joined, lemma_no_byte, pieces, split_after_join, split_once, words_from, words_of,
};
use crate::logs::{logs_html, logs_json};
use crate::mail::written::written_head;
use crate::number::{
    decimal, decimal_round_trip, digit_value, hex_pair, lemma_decimal, unsigned_part,
};
use crate::sms::SmsView;
use crate::text::{
    ascii_lower, blank, is_space, lemma_end_of_is, lemma_next, lemma_next_is, lemma_trimmed_is,
    lower, next, prefixed, texts, trimmed_end, Class,
};

verus! {

// ───────────────────────── parameters ─────────────────────────

/// The pair sets the parameter `key`.
pub open spec fn sets(pair: Seq<char>, key: Seq<char>) -> bool {
    prefixed(pair, key + seq!['='])
}

/// The pairs of a query.
pub open spec fn query_of(pairs: Seq<Seq<char>>) -> Seq<char> {
    joined(pairs, seq!['&'])
}

/// Pairs that can stand in a query.
pub open spec fn proper_pairs(pairs: Seq<Seq<char>>) -> bool {
    forall|i: int| 0 <= i < pairs.len() ==> !(#[trigger] pairs[i]).contains('&')
}

/// A key with nothing in it that divides a query.
pub open spec fn proper_key(key: Seq<char>) -> bool {
    !key.contains('&') && !key.contains('=')
}

proof fn lemma_sets(pair: Seq<char>, key: Seq<char>)
    requires
        proper_key(key),
    ensures
        sets(pair, key) <==> (split_once(pair, '=') matches Some((k, v)) && k == key),
        sets(pair, key) ==> split_once(pair, '=') == Some(
            (key, pair.subrange(key.len() as int + 1, pair.len() as int)),
        ),
{
    let n = key.len() as int;
    if sets(pair, key) {
        let head = pair.subrange(0, n + 1);
        assert forall|i: int| 0 <= i < n implies !Class::Is('=').admits(#[trigger] pair[i]) by {
            assert(head[i] == key[i]);
            assert(key.contains(key[i]));
        }
        assert(head[n] == '=');
        assert(pair[n] == '=');
        lemma_next_is(pair, Class::Is('='), 0, n);
        assert(pair.subrange(0, n) =~= key) by {
            assert forall|i: int| 0 <= i < n implies pair[i] == key[i] by {
                assert(head[i] == key[i]);
            }
        }
    }
    if let Some((k, v)) = split_once(pair, '=') {
        if k == key {
            lemma_next(pair, Class::Is('='), 0);
            let i = next(pair, Class::Is('='), 0);
            assert(i == n);
            assert(pair.subrange(0, n + 1) =~= key + seq!['=']);
        }
    }
}

/// Pairs that do not set a parameter do not change it.
proof fn lemma_value_stays(pairs: Seq<Seq<char>>, more: Seq<Seq<char>>, key: Seq<char>)
    requires
        proper_key(key),
        forall|i: int| 0 <= i < more.len() ==> !sets(#[trigger] more[i], key),
    ensures
        value_in(pairs + more, key) == value_in(pairs, key),
    decreases more.len(),
{
    if more.len() == 0 {
        assert(pairs + more =~= pairs);
    } else {
        let front = more.drop_last();
        assert((pairs + more).drop_last() =~= pairs + front);
        assert((pairs + more).last() == more[more.len() - 1]);
        lemma_sets(more[more.len() - 1], key);
        assert forall|i: int| 0 <= i < front.len() implies !sets(#[trigger] front[i], key) by {
            assert(front[i] == more[i]);
        }
        lemma_value_stays(pairs, front, key);
    }
}

proof fn lemma_pieces_of_query(pairs: Seq<Seq<char>>)
    requires
        proper_pairs(pairs),
        pairs.len() > 0,
    ensures
        pieces(query_of(pairs), '&') == pairs,
{
    split_after_join(pairs, '&');
}

/// A parameter that no pair sets has no value.
pub proof fn an_unset_parameter_has_no_value(pairs: Seq<Seq<char>>, key: Seq<char>)
    requires
        proper_pairs(pairs),
        pairs.len() > 0,
        proper_key(key),
        forall|i: int| 0 <= i < pairs.len() ==> !sets(#[trigger] pairs[i], key),
    ensures
        param_text(query_of(pairs), key) is None,
{
    lemma_pieces_of_query(pairs);
    lemma_value_stays(seq![], pairs, key);
    assert(Seq::<Seq<char>>::empty() + pairs =~= pairs);
}

/// A parameter has the value that the last pair that sets it writes, whatever pairs stand before
/// it, and whatever pairs with other keys behind it.
pub proof fn a_parameter_has_its_last_value(
    before: Seq<Seq<char>>,
    key: Seq<char>,
    value: Seq<char>,
    after: Seq<Seq<char>>,
)
    requires
        proper_pairs(before),
        proper_pairs(after),
        proper_key(key),
        !value.contains('&'),
        forall|i: int| 0 <= i < after.len() ==> !sets(#[trigger] after[i], key),
    ensures
        param_text(query_of(before.push(key + seq!['='] + value) + after), key) == Some(
            percent_text(value),
        ),
{
    let pair = key + seq!['='] + value;
    let pairs = before.push(pair);
    let all = pairs + after;
    assert forall|i: int| 0 <= i < all.len() implies !(#[trigger] all[i]).contains('&') by {
        if i < before.len() {
            assert(all[i] == before[i]);
        } else if i == before.len() {
            assert forall|j: int| 0 <= j < pair.len() implies #[trigger] pair[j] != '&' by {
                if j < key.len() {
                    assert(pair[j] == key[j]);
                    assert(key.contains(key[j]));
                } else if j > key.len() {
                    assert(pair[j] == value[j - key.len() - 1]);
                    assert(value.contains(value[j - key.len() - 1]));
                }
            }
        } else {
            assert(all[i] == after[i - pairs.len()]);
        }
    }
    lemma_pieces_of_query(all);
    lemma_value_stays(pairs, after, key);
    assert(pairs.last() == pair);
    let n = key.len() as int;
    assert(pair.subrange(0, n + 1) =~= key + seq!['=']);
    lemma_sets(pair, key);
    assert(pair.subrange(n + 1, pair.len() as int) =~= value);
}

/// What `url_form` writes is read as the text, and divides no query.
proof fn lemma_url_form(text: Seq<char>)
    ensures
        percent_text(url_form(text)) == text,
        !url_form(text).contains('&'),
{
    let bytes = percent_encoded(encode_utf8(text));
    let form = url_form(text);
    lemma_percent_encoded(encode_utf8(text));
    assert forall|i: int| 0 <= i < form.len() implies '\0' <= #[trigger] form[i] <= '\u{7f}'
        && form[i] != '&' by {
        assert(bytes[i] == 37 || 0x30 <= bytes[i] <= 0x46);
    }
    assert(is_ascii_chars(form));
    is_ascii_chars_encode_utf8(form);
    assert(encode_utf8(form) =~= bytes);
    percent_round_trip(encode_utf8(text));
    encode_utf8_valid_utf8(text);
    encode_utf8_decode_utf8(text);
}

/// A text as a form sends it: a plus sign for each space.
pub open spec fn plus_form(text: Seq<char>) -> Seq<char> {
    Seq::new(
        text.len(),
        |i: int|
            if text[i] == ' ' {
                '+'
            } else {
                text[i]
            },
    )
}

proof fn lemma_plain_from(s: Seq<u8>, i: int)
    requires
        0 <= i <= s.len(),
        forall|j: int| 0 <= j < s.len() ==> #[trigger] s[j] != 37,
    ensures
        percent_from(s, i) == Seq::new(
            (s.len() - i) as nat,
            |j: int|
                if s[i + j] == 43 {
                    32u8
                } else {
                    s[i + j]
                },
        ),
    decreases s.len() - i,
{
    let t = Seq::new(
        (s.len() - i) as nat,
        |j: int|
            if s[i + j] == 43 {
                32u8
            } else {
                s[i + j]
            },
    );
    if i < s.len() {
        lemma_plain_from(s, i + 1);
        assert(percent_from(s, i) =~= t);
    } else {
        assert(percent_from(s, i) =~= t);
    }
}

proof fn lemma_plus_bytes(text: Seq<char>)
    requires
        !text.contains('+'),
    ensures
        encode_utf8(plus_form(text)).len() == encode_utf8(text).len(),
        forall|i: int|
            0 <= i < encode_utf8(text).len() ==> #[trigger] encode_utf8(text)[i] == (if encode_utf8(
                plus_form(text),
            )[i] == 43 {
                32
            } else {
                encode_utf8(plus_form(text))[i]
            }),
    decreases text.len(),
{
    let f = plus_form(text);
    if text.len() > 0 {
        let rest = text.drop_first();
        assert(f.drop_first() =~= plus_form(rest));
        assert(text.contains(text[0]));
        assert forall|c: char| rest.contains(c) implies #[trigger] text.contains(c) by {
            let k = choose|k: int| 0 <= k < rest.len() && rest[k] == c;
            assert(text[k + 1] == c);
        }
        assert(!rest.contains('+'));
        lemma_plus_bytes(rest);
        let a = encode_scalar(text[0] as u32);
        let b = encode_scalar(f[0] as u32);
        assert((32u32 & 0x7f) as u8 == 32) by (bit_vector);
        assert((43u32 & 0x7f) as u8 == 43) by (bit_vector);
        if text[0] != ' ' {
            assert(!seq![text[0]].contains('+'));
            lemma_no_byte(seq![text[0]], '+');
            reveal_with_fuel(encode_utf8, 2);
            assert(seq![text[0]].drop_first() =~= seq![]);
            assert(encode_utf8(seq![text[0]]) =~= a);
            assert forall|i: int| 0 <= i < a.len() implies #[trigger] a[i] != 43 by {
                assert(encode_utf8(seq![text[0]])[i] == a[i]);
            }
        }
        let x = encode_utf8(text);
        let y = encode_utf8(f);
        assert(x == a + encode_utf8(rest));
        assert(y == b + encode_utf8(plus_form(rest)));
        assert forall|i: int| 0 <= i < x.len() implies #[trigger] x[i] == (if y[i] == 43 {
            32
        } else {
            y[i]
        }) by {
            if i >= a.len() {
                assert(x[i] == encode_utf8(rest)[i - a.len()]);
                assert(y[i] == encode_utf8(plus_form(rest))[i - a.len()]);
            } else {
                assert(x[i] == a[i]);
                assert(y[i] == b[i]);
            }
        }
    } else {
        assert(f =~= text);
    }
}

/// A text without signs that mean something else is read as it stands, with a space for each plus
/// sign.
pub proof fn plain_values_are_read(text: Seq<char>)
    requires
        !text.contains('%'),
        !text.contains('+'),
    ensures
        percent_text(plus_form(text)) == text,
        !text.contains(' ') ==> percent_text(text) == text,
{
    let f = plus_form(text);
    assert(!f.contains('%')) by {
        assert forall|i: int| 0 <= i < f.len() implies #[trigger] f[i] != '%' by {
            assert(text.contains(text[i]));
        }
    }
    lemma_no_byte(f, '%');
    lemma_plain_from(encode_utf8(f), 0);
    lemma_plus_bytes(text);
    assert(percent_from(encode_utf8(f), 0) =~= encode_utf8(text));
    encode_utf8_valid_utf8(text);
    encode_utf8_decode_utf8(text);
    if !text.contains(' ') {
        assert(f =~= text) by {
            assert forall|i: int| 0 <= i < f.len() implies f[i] == text[i] by {
                assert(text.contains(text[i]));
            }
        }
    }
}

/// A percent sign without two hexadecimal digits behind it stands for itself, and what is behind
/// it is read as ever.
pub proof fn a_lone_percent_sign_stays(rest: Seq<u8>)
    requires
        hex_pair(rest, 0) is None,
    ensures
        percent_from(seq![37u8] + rest, 0) == seq![37u8] + percent_from(rest, 0),
{
    let s = seq![37u8] + rest;
    lemma_percent_behind(seq![37u8], rest, 0);
    assert(s[0] == 37);
    if rest.len() > 1 {
        assert(s[1] == rest[0]);
        assert(s[2] == rest[1]);
    }
    assert(hex_pair(s, 1) is None);
}

// ───────────────────────── what requests send on ─────────────────────────

/// A code that is sent is taken as it was sent: by either method, whatever other parameters
/// stand around it, and from wherever it comes.
pub proof fn a_sent_code_is_taken(
    post: bool,
    before: Seq<Seq<char>>,
    code: Seq<char>,
    after: Seq<Seq<char>>,
    site: Site,
)
    requires
        !blank(code),
        proper_pairs(before),
        proper_pairs(after),
        forall|i: int| 0 <= i < after.len() ==> !sets(#[trigger] after[i], "code"@),
    ensures
        ({
            let method = if post {
                "POST"@
            } else {
                "GET"@
            };
            let query = query_of(before.push("code="@ + url_form(code)) + after);
            let a = served(method, "/"@, query, site);
            &&& a.status == 200
            &&& a.message == Some(SmsView::Code(code))
        }),
{
    lemma_keys();
    lemma_url_form(code);
    assert("code="@ + url_form(code) =~= "code"@ + seq!['='] + url_form(code));
    a_parameter_has_its_last_value(before, "code"@, url_form(code), after);
    lemma_root_is_no_log_path();
}

/// A short message that is sent is taken as it was sent, where no code comes with it.
pub proof fn a_sent_message_is_taken(
    post: bool,
    before: Seq<Seq<char>>,
    text: Seq<char>,
    after: Seq<Seq<char>>,
    site: Site,
)
    requires
        proper_pairs(before),
        proper_pairs(after),
        forall|i: int| 0 <= i < before.len() ==> !sets(#[trigger] before[i], "code"@),
        forall|i: int|
            0 <= i < after.len() ==> !sets(#[trigger] after[i], "code"@) && !sets(
                after[i],
                "sms"@,
            ),
    ensures
        ({
            let method = if post {
                "POST"@
            } else {
                "GET"@
            };
            let query = query_of(before.push("sms="@ + url_form(text)) + after);
            let a = served(method, "/"@, query, site);
            &&& a.status == 200
            &&& a.message == Some(SmsView::Sms(text))
        }),
{
    lemma_keys();
    lemma_url_form(text);
    let form = url_form(text);
    let pair = "sms="@ + form;
    assert(pair =~= "sms"@ + seq!['='] + form);
    a_parameter_has_its_last_value(before, "sms"@, form, after);
    let all = before.push(pair) + after;
    assert(!sets(pair, "code"@)) by {
        if sets(pair, "code"@) {
            assert(pair.subrange(0, 5)[0] == 'c');
            assert(pair[0] == 's');
        }
    }
    assert forall|i: int| 0 <= i < all.len() implies !(#[trigger] all[i]).contains('&') && !sets(
        all[i],
        "code"@,
    ) by {
        if i < before.len() {
            assert(all[i] == before[i]);
        } else if i == before.len() {
            assert(all[i] == pair);
            assert forall|j: int| 0 <= j < pair.len() implies #[trigger] pair[j] != '&' by {
                if j >= 4 {
                    assert(pair[j] == form[j - 4]);
                    assert(form.contains(form[j - 4]));
                }
            }
        } else {
            assert(all[i] == after[i - before.len() - 1]);
        }
    }
    an_unset_parameter_has_no_value(all, "code"@);
    lemma_root_is_no_log_path();
}

/// A request that sends neither is told how to, and sends nothing on.
pub proof fn a_request_for_nothing_is_helped(post: bool, pairs: Seq<Seq<char>>, site: Site)
    requires
        proper_pairs(pairs),
        pairs.len() > 0,
        forall|i: int|
            0 <= i < pairs.len() ==> !sets(#[trigger] pairs[i], "code"@) && !sets(
                pairs[i],
                "sms"@,
            ),
    ensures
        ({
            let method = if post {
                "POST"@
            } else {
                "GET"@
            };
            let a = served(method, "/"@, query_of(pairs), site);
            &&& a.status == 200
            &&& a.message is None
            &&& a.body == help_text()
        }),
{
    lemma_keys();
    an_unset_parameter_has_no_value(pairs, "code"@);
    an_unset_parameter_has_no_value(pairs, "sms"@);
    lemma_root_is_no_log_path();
}

proof fn lemma_keys()
    ensures
        proper_key("code"@),
        proper_key("sms"@),
        "code="@ == "code"@ + seq!['='],
        "sms="@ == "sms"@ + seq!['='],
        "code"@.len() == 4,
        "code"@[0] == 'c',
        "sms"@.len() == 3,
        "sms"@[0] == 's',
{
    reveal_strlit("code");
    reveal_strlit("sms");
    reveal_strlit("code=");
    reveal_strlit("sms=");
    assert("code="@ =~= "code"@ + seq!['=']);
    assert("sms="@ =~= "sms"@ + seq!['=']);
}

/// From this machine the log can be read, as a page or as JSON, whatever the query; no other path
/// but the root is known, and no other methods than the two.
pub proof fn the_log_can_be_read_here(
    post: bool,
    path: Seq<char>,
    method: Seq<char>,
    query: Seq<char>,
    site: Site,
)
    ensures
        ({
            let known = if post {
                "POST"@
            } else {
                "GET"@
            };
            &&& site.is_local ==> {
                &&& served(known, "/logs"@, query, site).status == 200
                &&& served(known, "/logs"@, query, site).body == logs_html(
                    site.page@,
                    site.ws_port,
                )
                &&& served(known, "/logs/"@, query, site) == served(known, "/logs"@, query, site)
                &&& served(known, "/logs/raw"@, query, site).status == 200
                &&& served(known, "/logs/raw"@, query, site).body == logs_json(texts(site.lines@))
            }
            &&& path != "/"@ && path != "/logs"@ && path != "/logs/"@ && path != "/logs/raw"@
                ==> served(known, path, query, site).status == 404
            &&& method != "GET"@ && method != "POST"@ ==> served(method, path, query, site).status
                == 405
        }),
{
    reveal_strlit("/logs");
    reveal_strlit("/logs/");
    reveal_strlit("/logs/raw");
    assert("/logs"@.len() == 5 && "/logs/"@.len() == 6 && "/logs/raw"@.len() == 9);
}

// ───────────────────────── heads ─────────────────────────

/// The length of a body is read whatever the case of its name, with or without white space around
/// the number.
pub proof fn a_content_length_is_read(
    name: Seq<char>,
    pad: Seq<char>,
    n: usize,
    end: Seq<char>,
    length: usize,
)
    requires
        ascii_lower(name) == "content-length"@,
        forall|i: int| 0 <= i < pad.len() ==> is_space(#[trigger] pad[i]),
        forall|i: int| 0 <= i < end.len() ==> is_space(#[trigger] end[i]),
    ensures
        length_after(name + seq![':'] + pad + decimal(n as nat) + end, length) == Some(n),
{
    reveal_strlit("content-length");
    reveal_strlit("content-length:");
    let d = decimal(n as nat);
    lemma_decimal(n as nat);
    decimal_round_trip(n as nat, usize::MAX as int);
    let key = "content-length:"@;
    let line = name + seq![':'] + pad + d + end;
    let h = name + seq![':'] + pad + d;
    let m = h.len() as int;
    assert(line.subrange(0, m) =~= h);
    assert forall|i: int| m <= i < line.len() implies !Class::Ink.admits(#[trigger] line[i]) by {
        assert(line[i] == end[i - m]);
    }
    assert forall|i: int| 0 <= i < d.len() implies '0' <= #[trigger] d[i] <= '9' by {
        assert(digit_value(d[i], 10) is Some);
    }
    assert(line[m - 1] == d[d.len() - 1]);
    lemma_end_of_is(line, Class::Ink, m);
    assert(trimmed_end(line) == h);
    let low = ascii_lower(h);
    assert(ascii_lower(name).len() == name.len());
    assert forall|i: int| 0 <= i < 15 implies low[i] == key[i] by {
        if i < 14 {
            assert(h[i] == name[i]);
            assert(ascii_lower(name)[i] == "content-length"@[i]);
        } else {
            assert(h[i] == ':');
        }
    }
    assert(low.subrange(0, 15) =~= key);
    let rest = low.subrange(15, low.len() as int);
    let a = pad.len() as int;
    assert forall|i: int| 0 <= i < a implies is_space(#[trigger] rest[i]) by {
        assert(h[15 + i] == pad[i]);
        assert(is_space(pad[i]));
    }
    assert forall|i: int| a <= i < rest.len() implies rest[i] == d[i - a] by {
        assert(h[15 + i] == d[i - a]);
    }
    lemma_trimmed_is(rest, a, rest.len() as int);
    assert(rest.subrange(a, rest.len() as int) =~= d);
}

/// A line with white space alone ends a head, and a line with another name changes nothing.
pub proof fn other_header_lines_change_nothing(line: Seq<char>, length: usize)
    ensures
        blank(line) ==> length_after(line, length) is None,
        !blank(line) && !prefixed(ascii_lower(line), "content-length:"@) ==> length_after(
            line,
            length,
        ) == Some(length),
{
    crate::text::lemma_end_of(line, Class::Ink);
    let h = trimmed_end(line);
    if blank(line) {
        if h.len() > 0 {
            assert(is_space(line[h.len() - 1]));
        }
    } else {
        if h.len() == 0 {
            assert forall|i: int| 0 <= i < line.len() implies is_space(#[trigger] line[i]) by {
                assert(!Class::Ink.admits(line[i]));
            }
        }
        let key = "content-length:"@;
        let n = key.len() as int;
        if prefixed(ascii_lower(h), key) {
            assert(ascii_lower(line).subrange(0, n) =~= ascii_lower(h).subrange(0, n));
        }
    }
}

/// A request without a query is read as it was sent.
pub proof fn a_request_without_a_query_is_read(
    method: Seq<char>,
    path: Seq<char>,
    rest: Seq<char>,
)
    requires
        method.len() > 0,
        path.len() > 0,
        forall|i: int| 0 <= i < method.len() ==> !is_space(#[trigger] method[i]),
        forall|i: int| 0 <= i < path.len() ==> !is_space(#[trigger] path[i]),
        !path.contains('?'),
        rest.len() > 0,
        is_space(rest[0]),
    ensures
        ({
            let line = method + seq![' '] + path + rest;
            &&& word_or(line, 0, seq![]) == method
            &&& path_and_query(word_or(line, 1, "/"@)) == (path, Seq::<char>::empty())
        }),
{
    let line = method + seq![' '] + path + rest;
    let m = method.len() as int;
    let e = m + 1 + path.len();
    assert forall|i: int| 0 <= i < m implies !is_space(#[trigger] line[i]) by {
        assert(line[i] == method[i]);
    }
    assert(line[m] == ' ');
    assert forall|i: int| m < i < e implies !is_space(#[trigger] line[i]) by {
        assert(line[i] == path[i - m - 1]);
    }
    assert(line[e] == rest[0]);
    lemma_next_is(line, Class::Ink, 0, 0);
    lemma_next_is(line, Class::Whitespace, 0, m);
    lemma_next_is(line, Class::Ink, m, m + 1);
    lemma_next_is(line, Class::Whitespace, m + 1, e);
    assert(line.subrange(0, m) =~= method);
    assert(line.subrange(m + 1, e) =~= path);
    let words = words_of(line);
    assert(words_from(line, m) == seq![path] + words_from(line, e));
    assert(words == seq![method] + words_from(line, m));
    assert(words[0] == method);
    assert(words[1] == path);
    assert forall|i: int| 0 <= i < path.len() implies !Class::Is('?').admits(
        #[trigger] path[i],
    ) by {
        assert(path.contains(path[i]));
    }
    lemma_next_is(path, Class::Is('?'), 0, path.len() as int);
}

/// The head of a response is a status line and header fields, and an empty line ends it. The
/// length that it states is that of the body that is sent.
pub proof fn a_response_states_its_length(status: u16, content_type: Seq<char>, body: Seq<char>)
    ensures
        response_head(status, content_type, body) == "HTTP/1.1 "@ + decimal(status as nat) + " "@
            + reason(status) + "\r\n"@ + written_head(
            seq![
                ("Content-Type"@, content_type),
                ("Content-Length"@, decimal(encode_utf8(body).len())),
                ("Connection"@, "close"@),
            ],
        ) + "\r\n\r\n"@,
        reason(200) == "OK"@,
        reason(400) == "Bad Request"@,
        reason(403) == "Forbidden"@,
        reason(404) == "Not Found"@,
        reason(405) == "Method Not Allowed"@,
{
    let fields = seq![
        ("Content-Type"@, content_type),
        ("Content-Length"@, decimal(encode_utf8(body).len())),
        ("Connection"@, "close"@),
    ];
    reveal_strlit("\r\nContent-Type: ");
    reveal_strlit("\r\nContent-Length: ");
    reveal_strlit("\r\nConnection: close\r\n\r\n");
    reveal_strlit("\r\n\r\n");
    reveal_strlit("\r\n");
    reveal_strlit("Content-Type");
    reveal_strlit("Content-Length");
    reveal_strlit("Connection");
    reveal_strlit("close");
    reveal_strlit(": ");
    let lines = crate::mail::written::field_lines(fields);
    reveal_with_fuel(joined, 4);
    assert(lines.drop_last().drop_last().drop_last() =~= seq![]);
    assert("\r\nContent-Type: "@ =~= "\r\n"@ + "Content-Type"@ + ": "@);
    assert("\r\nContent-Length: "@ =~= "\r\n"@ + "Content-Length"@ + ": "@);
    assert("\r\nConnection: close\r\n\r\n"@ =~= "\r\n"@ + "Connection"@ + ": "@ + "close"@
        + "\r\n\r\n"@);
    let d = decimal(encode_utf8(body).len());
    let head = "HTTP/1.1 "@ + decimal(status as nat) + " "@ + reason(status);
    let a = "Content-Type"@ + ": "@ + content_type;
    let b = "Content-Length"@ + ": "@ + d;
    let c = "Connection"@ + ": "@ + "close"@;
    assert(written_head(fields) =~= a + "\r\n"@ + b + "\r\n"@ + c);
    assert(response_head(status, content_type, body) =~= head + "\r\n"@ + a + "\r\n"@ + b
        + "\r\n"@ + c + "\r\n\r\n"@);
    assert(head + "\r\n"@ + (a + "\r\n"@ + b + "\r\n"@ + c) + "\r\n\r\n"@ =~= head + "\r\n"@ + a
        + "\r\n"@ + b + "\r\n"@ + c + "\r\n\r\n"@);
}

/// A line without a method has none, and one without a target asks for the root.
pub proof fn missing_words_have_defaults(line: Seq<char>, method: Seq<char>)
    requires
        blank(line),
        method.len() > 0,
        forall|i: int| 0 <= i < method.len() ==> !is_space(#[trigger] method[i]),
    ensures
        word_or(line, 0, seq![]) == Seq::<char>::empty(),
        path_and_query(word_or(line, 1, "/"@)) == ("/"@, Seq::<char>::empty()),
        word_or(method + line, 0, seq![]) == method,
        path_and_query(word_or(method + line, 1, "/"@)) == ("/"@, Seq::<char>::empty()),
{
    reveal_strlit("/");
    lemma_next_is("/"@, Class::Is('?'), 0, 1);
    let n = line.len() as int;
    lemma_next_is(line, Class::Ink, 0, n);
    assert(words_of(line) =~= seq![]);
    let s = method + line;
    let m = method.len() as int;
    assert forall|i: int| 0 <= i < m implies !is_space(#[trigger] s[i]) by {
        assert(s[i] == method[i]);
    }
    assert forall|i: int| m <= i < s.len() implies is_space(#[trigger] s[i]) by {
        assert(s[i] == line[i - m]);
    }
    lemma_next_is(s, Class::Ink, 0, 0);
    lemma_next_is(s, Class::Whitespace, 0, m);
    lemma_next_is(s, Class::Ink, m, s.len() as int);
    assert(s.subrange(0, m) =~= method);
    assert(words_from(s, m) =~= seq![]);
    assert(words_of(s) =~= seq![method]);
}

/// A length that is no number counts as none, whatever was read before.
pub proof fn an_unreadable_length_is_none(name: Seq<char>, value: Seq<char>, length: usize)
    requires
        ascii_lower(name) == "content-length"@,
        value.len() > 0,
        !is_space(value[0]),
        !is_space(value.last()),
        !('0' <= value.last() <= '9'),
    ensures
        length_after(name + seq![':', ' '] + value, length) == Some(0usize),
{
    reveal_strlit("content-length");
    reveal_strlit("content-length:");
    let key = "content-length:"@;
    let line = name + seq![':', ' '] + value;
    let m = line.len() as int;
    assert(line[m - 1] == value.last());
    lemma_end_of_is(line, Class::Ink, m);
    assert(line.subrange(0, m) =~= line);
    let low = ascii_lower(line);
    assert(ascii_lower(name).len() == name.len());
    assert forall|i: int| 0 <= i < 15 implies low[i] == key[i] by {
        if i < 14 {
            assert(line[i] == name[i]);
            assert(ascii_lower(name)[i] == "content-length"@[i]);
        } else {
            assert(line[i] == ':');
        }
    }
    assert(low.subrange(0, 15) =~= key);
    let rest = low.subrange(15, m);
    let v = ascii_lower(value);
    assert(rest =~= seq![' '] + v);
    assert(rest[1] == lower(value[0]));
    assert(rest[rest.len() - 1] == lower(value.last()));
    lemma_trimmed_is(rest, 1, rest.len() as int);
    assert(rest.subrange(1, rest.len() as int) =~= v);
    let d = unsigned_part(v);
    if d.len() > 0 {
        assert(d[d.len() - 1] == v[v.len() - 1]);
        assert(digit_value(d[d.len() - 1], 10) is None);
    }
}

} // verus!
