//! The HTTP service: reading requests, answering them, and what they send on.
//!
//! Codes and short messages come in as parameters of the URL, from anywhere on the network. The
//! log can be read from this machine only.
use vstd::prelude::*;
use vstd::slice::slice_subrange;
use vstd::utf8::{
    encode_utf8, encode_utf8_decode_utf8, encode_utf8_valid_utf8, is_ascii_chars,
    is_ascii_chars_encode_utf8,
};

use crate::lines::{
    byte_len, cut, joined, pieces, split, split_after_join, split_once, split_words, words_from,
    words_of,
};
use crate::logs::{logs_html, logs_json, render_logs_html_with_port, render_logs_json};
use crate::number::{
    decimal, hex_digit, hex_pair, lemma_hex_digit, push_decimal, read_hex_pair, read_unsigned,
    unsigned,
};
use crate::sms::{
    company_and_code, opt_sms, reaction_to, ReactionView, SmsMessage, SmsView,
};
use crate::text::{
    ascii_lower, blank, chars_of, copy_string, is_space, is_text, lemma_blank, lemma_next,
    lemma_next_is, next, prefixed, push_text, starts_with, string_of, texts, to_ascii_lower, trim,
    trim_end, trimmed, trimmed_end, views, Class,
};
use crate::unicode::{from_utf8_lossy, lossy_text};

verus! {

// ───────────────────────── the request ─────────────────────────

/// The method, the path and the query of a request.
pub struct Request {
    pub method: String,
    pub path: String,
    pub query: String,
}

/// The word `i` of the line, or `default` where it has fewer.
pub open spec fn word_or(line: Seq<char>, i: int, default: Seq<char>) -> Seq<char> {
    if i < words_of(line).len() {
        words_of(line)[i]
    } else {
        default
    }
}

/// The path and the query of a target: the two sides of the first question mark.
pub open spec fn path_and_query(target: Seq<char>) -> (Seq<char>, Seq<char>) {
    match split_once(target, '?') {
        Some((p, q)) => (p, q),
        None => (target, seq![]),
    }
}

/// Reads the first line of a request: the method, and the target with its query. Where they
/// are missing, the method is empty and the target is the root.
pub fn parse_request_line(line: &str) -> (r: Request)
    ensures
        r.method@ == word_or(line@, 0, seq![]),
        (r.path@, r.query@) == path_and_query(word_or(line@, 1, "/"@)),
{
    let chars: Vec<char> = chars_of(line);
    let words: Vec<&[char]> = split_words(chars.as_slice());
    let ghost w = views(words@);
    let none: Vec<char> = Vec::new();
    assert(none@ =~= seq![]);
    let root: Vec<char> = chars_of("/");
    let method: &[char] = if words.len() > 0 {
        assert(w[0] == words@[0]@);
        words[0]
    } else {
        none.as_slice()
    };
    let target: &[char] = if words.len() > 1 {
        assert(w[1] == words@[1]@);
        words[1]
    } else {
        root.as_slice()
    };
    match cut(target, '?') {
        Some((p, q)) => Request {
            method: string_of(method),
            path: string_of(p),
            query: string_of(q),
        },
        None => Request {
            method: string_of(method),
            path: string_of(target),
            query: string_of(none.as_slice()),
        },
    }
}

/// The length of the body after one more line of the head; `None` where the line ends the head.
/// A length that cannot be read counts as none.
pub open spec fn length_after(line: Seq<char>, length: usize) -> Option<usize> {
    let h = trimmed_end(line);
    let low = ascii_lower(h);
    let key = "content-length:"@;
    if h.len() == 0 {
        None
    } else if prefixed(low, key) {
        match unsigned(
            trimmed(low.subrange(key.len() as int, low.len() as int)),
            10,
            usize::MAX as int,
        ) {
            Some(n) => Some(n as usize),
            None => Some(0),
        }
    } else {
        Some(length)
    }
}

/// The length of the body after one more line of the head; `None` where the line ends the head.
pub fn read_header(line: &str, length: usize) -> (r: Option<usize>)
    ensures
        r == length_after(line@, length),
{
    let chars: Vec<char> = chars_of(line);
    let h: &[char] = trim_end(chars.as_slice());
    if h.len() == 0 {
        return None;
    }
    proof {
        reveal_strlit("content-length:");
    }
    let low: Vec<char> = to_ascii_lower(h);
    if starts_with(low.as_slice(), "content-length:") {
        let rest: &[char] = slice_subrange(low.as_slice(), 15, low.len());
        match read_unsigned(trim(rest), 10, usize::MAX as u64) {
            Some(n) => Some(n as usize),
            None => Some(0),
        }
    } else {
        Some(length)
    }
}

// ───────────────────────── parameters ─────────────────────────

/// The bytes that `s` writes from `i` on: a percent sign and two hexadecimal digits write a
/// byte, a plus sign writes a space, and anything else itself.
pub open spec fn percent_from(s: Seq<u8>, i: int) -> Seq<u8>
    decreases s.len() - i,
{
    if i < 0 || i >= s.len() {
        seq![]
    } else if s[i] == 37 && hex_pair(s, i + 1) is Some {
        seq![hex_pair(s, i + 1)->0] + percent_from(s, i + 3)
    } else if s[i] == 43 {
        seq![32u8] + percent_from(s, i + 1)
    } else {
        seq![s[i]] + percent_from(s, i + 1)
    }
}

/// The bytes that `s` writes.
pub fn percent_bytes(s: &[u8]) -> (r: Vec<u8>)
    ensures
        r@ == percent_from(s@, 0),
{
    let mut out: Vec<u8> = Vec::new();
    let mut i: usize = 0;
    while i < s.len()
        invariant
            i <= s@.len(),
            percent_from(s@, 0) =~= out@ + percent_from(s@, i as int),
        decreases s.len() - i,
    {
        if s[i] == 37 && s.len() - i > 1 {
            if let Some(b) = read_hex_pair(s, i + 1) {
                out.push(b);
                i += 3;
                continue ;
            }
        }
        if s[i] == 43 {
            out.push(32);
        } else {
            out.push(s[i]);
        }
        i += 1;
    }
    out
}

/// The text that a value in a URL writes.
pub open spec fn percent_text(v: Seq<char>) -> Seq<char> {
    lossy_text(percent_from(encode_utf8(v), 0))
}

/// Reads a value in a URL.
pub fn percent_decode(v: &[char]) -> (r: String)
    ensures
        r@ == percent_text(v@),
{
    let s: String = string_of(v);
    from_utf8_lossy(percent_bytes(s.as_str().as_bytes()).as_slice())
}

/// What is written for `key` in the pairs: in the last one that has that key.
pub open spec fn value_in(pairs: Seq<Seq<char>>, key: Seq<char>) -> Option<Seq<char>>
    decreases pairs.len(),
{
    if pairs.len() == 0 {
        None
    } else {
        match split_once(pairs.last(), '=') {
            Some((k, v)) if k == key => Some(v),
            _ => value_in(pairs.drop_last(), key),
        }
    }
}

/// What is written for `key` in the query.
pub open spec fn raw_param(query: Seq<char>, key: Seq<char>) -> Option<Seq<char>> {
    value_in(pieces(query, '&'), key)
}

/// The value of `key` in the query.
pub open spec fn param_text(query: Seq<char>, key: Seq<char>) -> Option<Seq<char>> {
    match raw_param(query, key) {
        Some(v) => Some(percent_text(v)),
        None => None,
    }
}

/// What is written for `key` in the query: in the last pair that has that key.
pub fn find_param<'a>(query: &'a [char], key: &str) -> (r: Option<&'a [char]>)
    ensures
        match r {
            Some(v) => raw_param(query@, key@) == Some(v@),
            None => raw_param(query@, key@) is None,
        },
{
    let pairs: Vec<&'a [char]> = split(query, '&');
    let ghost all = views(pairs@);
    let mut n: usize = pairs.len();
    assert(all.take(n as int) =~= all);
    while n > 0
        invariant
            n <= pairs@.len(),
            all == views(pairs@),
            raw_param(query@, key@) == value_in(all.take(n as int), key@),
        decreases n,
    {
        n -= 1;
        assert(all.take(n + 1).drop_last() =~= all.take(n as int));
        assert(all.take(n + 1).last() == pairs@[n as int]@);
        if let Some((k, v)) = cut(pairs[n], '=') {
            if is_text(k, key) {
                return Some(v);
            }
        }
    }
    None
}

/// The value of `key` in the query.
pub fn query_param(query: &str, key: &str) -> (r: Option<String>)
    ensures
        match r {
            Some(v) => param_text(query@, key@) == Some(v@),
            None => param_text(query@, key@) is None,
        },
{
    let chars: Vec<char> = chars_of(query);
    match find_param(chars.as_slice(), key) {
        Some(v) => Some(percent_decode(v)),
        None => None,
    }
}

// ───────────────────────── the answer ─────────────────────────

/// The answer to a request, and the message that it sends on.
pub struct Answer {
    pub status: u16,
    pub content_type: String,
    pub body: String,
    pub message: Option<SmsMessage>,
}

/// The answer to a request, and the message that it sends on.
#[verifier::ext_equal]
pub struct AnswerView {
    pub status: u16,
    pub content_type: Seq<char>,
    pub body: Seq<char>,
    pub message: Option<SmsView>,
}

impl View for Answer {
    type V = AnswerView;

    open spec fn view(&self) -> AnswerView {
        AnswerView {
            status: self.status,
            content_type: self.content_type@,
            body: self.body@,
            message: opt_sms(self.message),
        }
    }
}

/// An answer in plain text.
pub open spec fn text_answer(status: u16, body: Seq<char>, message: Option<SmsView>) -> AnswerView {
    AnswerView { status, content_type: "text/plain; charset=utf-8"@, body, message }
}

/// What is said to a request that asks for nothing.
pub open spec fn help_text() -> Seq<char> {
    "SMS Notifier endpoints:\n- GET/POST /?code=<verification>\n- GET/POST /?sms=<raw sms text>\n- GET /logs          (HTML log viewer)\n"@
}

/// The paths under which the log can be read.
pub open spec fn is_log_path(path: Seq<char>) -> bool {
    path == "/logs"@ || path == "/logs/"@ || path == "/logs/raw"@
}

/// The methods that are answered.
pub open spec fn is_known_method(method: Seq<char>) -> bool {
    method == "GET"@ || method == "POST"@
}

/// What the service knows when it answers: whether the request comes from this machine, the
/// port of the log's push service, the lines of the log, and the page that shows them.
pub struct Site {
    pub is_local: bool,
    pub ws_port: u16,
    pub lines: Vec<String>,
    pub page: String,
}

/// The answer to a request with the parameters `code` and `sms`.
pub open spec fn answer_to(
    method: Seq<char>,
    path: Seq<char>,
    code: Option<Seq<char>>,
    sms: Option<Seq<char>>,
    site: Site,
) -> AnswerView {
    if !is_known_method(method) {
        text_answer(405, "Method not allowed\n"@, None)
    } else if is_log_path(path) {
        if !site.is_local {
            text_answer(403, "Forbidden\n"@, None)
        } else if path == "/logs/raw"@ {
            AnswerView {
                status: 200,
                content_type: "application/json; charset=utf-8"@,
                body: logs_json(texts(site.lines@)),
                message: None,
            }
        } else {
            AnswerView {
                status: 200,
                content_type: "text/html; charset=utf-8"@,
                body: logs_html(site.page@, site.ws_port),
                message: None,
            }
        }
    } else if path != "/"@ {
        text_answer(404, "Not found\n"@, None)
    } else {
        match code {
            Some(c) => if blank(c) {
                text_answer(400, "Empty code\n"@, None)
            } else {
                text_answer(200, "Code received\n"@, Some(SmsView::Code(c)))
            },
            None => match sms {
                Some(s) => text_answer(200, "SMS received\n"@, Some(SmsView::Sms(s))),
                None => text_answer(200, help_text(), None),
            },
        }
    }
}

/// An answer in plain text.
fn plain(status: u16, body: &str, message: Option<SmsMessage>) -> (r: Answer)
    ensures
        r@ == text_answer(status, body@, opt_sms(message)),
{
    Answer {
        status,
        content_type: copy_string("text/plain; charset=utf-8"),
        body: copy_string(body),
        message,
    }
}

/// Answers a request with the parameters `code` and `sms`.
pub fn answer(
    method: &str,
    path: &str,
    code: Option<String>,
    sms: Option<String>,
    site: &Site,
) -> (r: Answer)
    ensures
        r@ == answer_to(
            method@,
            path@,
            match code {
                Some(c) => Some(c@),
                None => None,
            },
            match sms {
                Some(s) => Some(s@),
                None => None,
            },
            *site,
        ),
{
    let m: Vec<char> = chars_of(method);
    let p: Vec<char> = chars_of(path);
    if !is_text(m.as_slice(), "GET") && !is_text(m.as_slice(), "POST") {
        return plain(405, "Method not allowed\n", None);
    }
    let raw: bool = is_text(p.as_slice(), "/logs/raw");
    if raw || is_text(p.as_slice(), "/logs") || is_text(p.as_slice(), "/logs/") {
        if !site.is_local {
            return plain(403, "Forbidden\n", None);
        }
        if raw {
            return Answer {
                status: 200,
                content_type: copy_string("application/json; charset=utf-8"),
                body: render_logs_json(site.lines.as_slice()),
                message: None,
            };
        }
        return Answer {
            status: 200,
            content_type: copy_string("text/html; charset=utf-8"),
            body: render_logs_html_with_port(site.page.as_str(), site.ws_port),
            message: None,
        };
    }
    if !is_text(p.as_slice(), "/") {
        return plain(404, "Not found\n", None);
    }
    if let Some(c) = code {
        let chars: Vec<char> = chars_of(c.as_str());
        proof {
            lemma_blank(c@);
        }
        if trim(chars.as_slice()).len() == 0 {
            return plain(400, "Empty code\n", None);
        }
        return plain(200, "Code received\n", Some(SmsMessage::Code(c)));
    }
    if let Some(s) = sms {
        return plain(200, "SMS received\n", Some(SmsMessage::Sms(s)));
    }
    plain(
        200,
        "SMS Notifier endpoints:\n- GET/POST /?code=<verification>\n- GET/POST /?sms=<raw sms text>\n- GET /logs          (HTML log viewer)\n",
        None,
    )
}

/// The answer to a request with that query.
pub open spec fn served(
    method: Seq<char>,
    path: Seq<char>,
    query: Seq<char>,
    site: Site,
) -> AnswerView {
    answer_to(method, path, param_text(query, "code"@), param_text(query, "sms"@), site)
}

/// Answers a request.
pub fn route_http(method: &str, path: &str, query: &str, site: &Site) -> (r: Answer)
    ensures
        r@ == answer_to(
            method@,
            path@,
            param_text(query@, "code"@),
            param_text(query@, "sms"@),
            *site,
        ),
        r@ == served(method@, path@, query@, *site),
{
    let code: Option<String> = query_param(query, "code");
    let sms: Option<String> = query_param(query, "sms");
    answer(method, path, code, sms, site)
}

// ───────────────────────── the response ─────────────────────────

/// The words for a status.
pub open spec fn reason(status: u16) -> Seq<char> {
    if status == 400 {
        "Bad Request"@
    } else if status == 403 {
        "Forbidden"@
    } else if status == 404 {
        "Not Found"@
    } else if status == 405 {
        "Method Not Allowed"@
    } else {
        "OK"@
    }
}

/// The words for a status.
pub fn status_text(status: u16) -> (r: &'static str)
    ensures
        r@ == reason(status),
{
    if status == 400 {
        "Bad Request"
    } else if status == 403 {
        "Forbidden"
    } else if status == 404 {
        "Not Found"
    } else if status == 405 {
        "Method Not Allowed"
    } else {
        "OK"
    }
}

/// The head of a response. The length is that of the body in bytes.
pub open spec fn response_head(status: u16, content_type: Seq<char>, body: Seq<char>) -> Seq<char> {
    "HTTP/1.1 "@ + decimal(status as nat) + " "@ + reason(status) + "\r\nContent-Type: "@
        + content_type + "\r\nContent-Length: "@ + decimal(byte_len(body))
        + "\r\nConnection: close\r\n\r\n"@
}

/// The whole response to write.
pub fn write_http_response(status: u16, content_type: &str, body: &str) -> (r: String)
    ensures
        r@ == response_head(status, content_type@, body@) + body@,
{
    let n: usize = body.as_bytes().len();
    let mut out: Vec<char> = chars_of("HTTP/1.1 ");
    push_decimal(&mut out, status as u64);
    push_text(&mut out, " ");
    push_text(&mut out, status_text(status));
    push_text(&mut out, "\r\nContent-Type: ");
    push_text(&mut out, content_type);
    push_text(&mut out, "\r\nContent-Length: ");
    push_decimal(&mut out, n as u64);
    push_text(&mut out, "\r\nConnection: close\r\n\r\n");
    push_text(&mut out, body);
    string_of(out.as_slice())
}

// ───────────────────────── laws ─────────────────────────

/// Requests send something on only where they are answered with 200, at the root, by a method
/// that is known; and what they send on is what their parameters say, a code before a short
/// message.
pub proof fn only_good_requests_are_sent_on(
    method: Seq<char>,
    path: Seq<char>,
    code: Option<Seq<char>>,
    sms: Option<Seq<char>>,
    site: Site,
)
    ensures
        answer_to(method, path, code, sms, site).message matches Some(m) ==> {
            &&& answer_to(method, path, code, sms, site).status == 200
            &&& is_known_method(method)
            &&& path == "/"@
            &&& match m {
                SmsView::Code(c) => code == Some(c) && !blank(c),
                SmsView::Sms(s) => code is None && sms == Some(s),
                _ => false,
            }
        },
{
}

/// A code in the URL is shown, pasted and submitted, from wherever the request comes.
pub proof fn a_code_is_pasted_and_submitted(
    method: Seq<char>,
    code: Seq<char>,
    sms: Option<Seq<char>>,
    site: Site,
)
    requires
        !blank(code),
        is_known_method(method),
    ensures
        ({
            let a = answer_to(method, "/"@, Some(code), sms, site);
            &&& a.status == 200
            &&& a.message matches Some(m) && reaction_to(m) == Some(
                (ReactionView {
                    paste: Some((code, true)),
                    show: Some(("收到验证码"@, code)),
                    warning: None,
                }),
            )
        }),
{
    lemma_root_is_no_log_path();
}

/// The code of a short message in the URL is pasted and submitted, and shown under the name of
/// the company.
pub proof fn the_code_of_a_short_message_is_pasted(
    method: Seq<char>,
    sms: Seq<char>,
    company: Seq<char>,
    code: Seq<char>,
    site: Site,
)
    requires
        is_known_method(method),
        company_and_code(sms) == Some((company, code)),
    ensures
        ({
            let a = answer_to(method, "/"@, None, Some(sms), site);
            &&& a.status == 200
            &&& a.message matches Some(m) && reaction_to(m) == Some(
                (ReactionView {
                    paste: Some((code, true)),
                    show: Some((company, "【"@ + company + "】: "@ + code)),
                    warning: None,
                }),
            )
        }),
{
    lemma_root_is_no_log_path();
    let a = next(sms, Class::Is('【'), 0);
    lemma_next(sms, Class::Is('【'), 0);
    assert(sms[a] == '【');
    assert(!is_space(sms[a]));
}

pub proof fn lemma_root_is_no_log_path()
    ensures
        !is_log_path("/"@),
{
    reveal_strlit("/");
    reveal_strlit("/logs");
    reveal_strlit("/logs/");
    reveal_strlit("/logs/raw");
    assert("/"@.len() == 1);
    assert("/logs"@.len() == 5);
    assert("/logs/"@.len() == 6);
    assert("/logs/raw"@.len() == 9);
}

/// A blank code is refused, and never sent on.
pub proof fn blank_codes_are_refused(
    method: Seq<char>,
    code: Seq<char>,
    sms: Option<Seq<char>>,
    site: Site,
)
    requires
        blank(code),
        is_known_method(method),
    ensures
        answer_to(method, "/"@, Some(code), sms, site).status == 400,
        answer_to(method, "/"@, Some(code), sms, site).message is None,
{
    lemma_root_is_no_log_path();
}

/// The log is for this machine only: from elsewhere, what is answered does not depend on it, and
/// the paths of the log are refused.
pub proof fn the_log_stays_local(
    method: Seq<char>,
    path: Seq<char>,
    code: Option<Seq<char>>,
    sms: Option<Seq<char>>,
    a: Site,
    b: Site,
)
    requires
        !a.is_local,
        !b.is_local,
    ensures
        answer_to(method, path, code, sms, a) == answer_to(method, path, code, sms, b),
        is_known_method(method) && is_log_path(path) ==> answer_to(
            method,
            path,
            code,
            sms,
            a,
        ).status == 403,
{
}

/// The last value of a parameter counts.
pub proof fn the_last_value_counts(pairs: Seq<Seq<char>>, key: Seq<char>, value: Seq<char>)
    requires
        !key.contains('='),
    ensures
        value_in(pairs.push(key + seq!['='] + value), key) == Some(value),
{
    let pair = key + seq!['='] + value;
    assert(pairs.push(pair).last() == pair);
    assert forall|i: int| 0 <= i < key.len() implies !Class::Is('=').admits(
        #[trigger] pair[i],
    ) by {
        assert(pair[i] == key[i]);
        assert(key.contains(key[i]));
    }
    assert(pair[key.len() as int] == '=');
    lemma_next_is(pair, Class::Is('='), 0, key.len() as int);
    assert(pair.subrange(0, key.len() as int) =~= key);
    assert(pair.subrange(key.len() as int + 1, pair.len() as int) =~= value);
}

/// Bytes, each written as a percent sign and two hexadecimal digits.
pub open spec fn percent_encoded(b: Seq<u8>) -> Seq<u8>
    decreases b.len(),
{
    if b.len() == 0 {
        seq![]
    } else {
        seq![37u8, hex_digit(b[0] as int / 16), hex_digit(b[0] as int % 16)] + percent_encoded(
            b.drop_first(),
        )
    }
}

pub proof fn lemma_percent_behind(a: Seq<u8>, t: Seq<u8>, i: int)
    requires
        0 <= i <= t.len(),
    ensures
        percent_from(a + t, a.len() + i) == percent_from(t, i),
    decreases t.len() - i,
{
    if i < t.len() {
        assert((a + t)[a.len() + i] == t[i]);
        if i + 2 < t.len() {
            assert((a + t)[a.len() + i + 1] == t[i + 1]);
            assert((a + t)[a.len() + i + 2] == t[i + 2]);
            lemma_percent_behind(a, t, i + 3);
        }
        lemma_percent_behind(a, t, i + 1);
    }
}

/// Any bytes can be sent in a URL: written with percent signs, they are read back as they were.
pub proof fn percent_round_trip(b: Seq<u8>)
    ensures
        percent_from(percent_encoded(b), 0) == b,
    decreases b.len(),
{
    if b.len() > 0 {
        let head = seq![37u8, hex_digit(b[0] as int / 16), hex_digit(b[0] as int % 16)];
        let tail = percent_encoded(b.drop_first());
        let s = head + tail;
        percent_round_trip(b.drop_first());
        lemma_percent_behind(head, tail, 0);
        assert(s[0] == 37);
        assert(s[1] == hex_digit(b[0] as int / 16));
        assert(s[2] == hex_digit(b[0] as int % 16));
        lemma_hex_digit(b[0] as int / 16);
        lemma_hex_digit(b[0] as int % 16);
        assert(hex_pair(s, 1) == Some(b[0]));
        assert(percent_from(s, 0) =~= seq![b[0]] + b.drop_first());
        assert(seq![b[0]] + b.drop_first() =~= b);
    }
}

/// A text as it can be sent in a URL: each byte of its UTF-8 form as a percent sign and two
/// hexadecimal digits.
pub open spec fn url_form(text: Seq<char>) -> Seq<char> {
    let b = percent_encoded(encode_utf8(text));
    Seq::new(b.len(), |i: int| b[i] as char)
}

pub proof fn lemma_percent_encoded(b: Seq<u8>)
    ensures
        forall|i: int|
            0 <= i < percent_encoded(b).len() ==> {
                let x = #[trigger] percent_encoded(b)[i];
                x == 37 || 0x30 <= x <= 0x46
            },
    decreases b.len(),
{
    if b.len() > 0 {
        let tail = percent_encoded(b.drop_first());
        lemma_percent_encoded(b.drop_first());
        lemma_hex_digit(b[0] as int / 16);
        lemma_hex_digit(b[0] as int % 16);
        let all = percent_encoded(b);
        assert forall|i: int| 0 <= i < all.len() implies {
            let x = #[trigger] all[i];
            x == 37 || 0x30 <= x <= 0x46
        } by {
            if i >= 3 {
                assert(all[i] == tail[i - 3]);
            }
        }
    }
}

/// Any text can be sent as the value of a parameter, whatever other parameters come before it:
/// sent in its URL form, it is read as it was.
pub proof fn any_text_can_be_sent(pairs: Seq<Seq<char>>, key: Seq<char>, text: Seq<char>)
    requires
        forall|i: int| 0 <= i < pairs.len() ==> !(#[trigger] pairs[i]).contains('&'),
        !key.contains('&'),
        !key.contains('='),
    ensures
        param_text(joined(pairs.push(key + seq!['='] + url_form(text)), seq!['&']), key) == Some(
            text,
        ),
{
    let bytes = percent_encoded(encode_utf8(text));
    let form = url_form(text);
    lemma_percent_encoded(encode_utf8(text));
    assert forall|i: int| 0 <= i < form.len() implies '\0' <= #[trigger] form[i] <= '\u{7f}'
        && form[i] != '&' by {
        assert(bytes[i] == 37 || 0x30 <= bytes[i] <= 0x46);
    }
    assert(is_ascii_chars(form));
    is_ascii_chars_encode_utf8(form);
    assert(encode_utf8(form) =~= bytes);
    percent_round_trip(encode_utf8(text));
    encode_utf8_valid_utf8(text);
    encode_utf8_decode_utf8(text);
    let pair = key + seq!['='] + form;
    let all = pairs.push(pair);
    assert forall|i: int| 0 <= i < all.len() implies !(#[trigger] all[i]).contains('&') by {
        if i == pairs.len() {
            assert forall|j: int| 0 <= j < pair.len() implies #[trigger] pair[j] != '&' by {
                if j < key.len() {
                    assert(pair[j] == key[j]);
                    assert(key.contains(key[j]));
                } else if j > key.len() {
                    assert(pair[j] == form[j - key.len() - 1]);
                }
            }
        } else {
            assert(all[i] == pairs[i]);
        }
    }
    split_after_join(all, '&');
    the_last_value_counts(pairs, key, form);
}

/// A request is read as it was sent: its method, its path, and its query.
pub proof fn a_request_is_read(
    method: Seq<char>,
    path: Seq<char>,
    query: Seq<char>,
    rest: Seq<char>,
)
    requires
        method.len() > 0,
        forall|i: int| 0 <= i < method.len() ==> !is_space(#[trigger] method[i]),
        forall|i: int| 0 <= i < path.len() ==> !is_space(#[trigger] path[i]),
        forall|i: int| 0 <= i < query.len() ==> !is_space(#[trigger] query[i]),
        !path.contains('?'),
        rest.len() > 0,
        is_space(rest[0]),
    ensures
        ({
            let line = method + seq![' '] + path + seq!['?'] + query + rest;
            &&& word_or(line, 0, seq![]) == method
            &&& path_and_query(word_or(line, 1, "/"@)) == (path, query)
        }),
{
    let target = path + seq!['?'] + query;
    let line = method + seq![' '] + path + seq!['?'] + query + rest;
    let m = method.len() as int;
    let e = m + 1 + target.len();
    assert(line =~= method + seq![' '] + target + rest);
    assert forall|i: int| 0 <= i < target.len() implies !is_space(#[trigger] target[i]) by {
        if i < path.len() {
            assert(target[i] == path[i]);
        } else if i > path.len() {
            assert(target[i] == query[i - path.len() - 1]);
        }
    }
    assert forall|i: int| 0 <= i < m implies !is_space(#[trigger] line[i]) by {
        assert(line[i] == method[i]);
    }
    assert(line[m] == ' ');
    assert forall|i: int| m < i < e implies !is_space(#[trigger] line[i]) by {
        assert(line[i] == target[i - m - 1]);
    }
    assert(line[e] == rest[0]);
    lemma_next_is(line, Class::Ink, 0, 0);
    lemma_next_is(line, Class::Whitespace, 0, m);
    lemma_next_is(line, Class::Ink, m, m + 1);
    lemma_next_is(line, Class::Whitespace, m + 1, e);
    assert(line.subrange(0, m) =~= method);
    assert(line.subrange(m + 1, e) =~= target);
    let words = words_of(line);
    assert(words_from(line, m) == seq![target] + words_from(line, e));
    assert(words == seq![method] + words_from(line, m));
    assert(words[0] == method);
    assert(words[1] == target);
    assert forall|i: int| 0 <= i < path.len() implies !Class::Is('?').admits(
        #[trigger] target[i],
    ) by {
        assert(target[i] == path[i]);
        assert(path.contains(path[i]));
    }
    assert(target[path.len() as int] == '?');
    lemma_next_is(target, Class::Is('?'), 0, path.len() as int);
    assert(target.subrange(0, path.len() as int) =~= path);
    assert(target.subrange(path.len() as int + 1, target.len() as int) =~= query);
}

} // verus!
