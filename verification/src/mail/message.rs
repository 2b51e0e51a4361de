//! Mail messages: subject, sender and plain text, and the verification code in them.
use vstd::prelude::*;
use vstd::utf8::is_ascii_chars;

use crate::code::{find_code, longest_code};
use crate::mail::charset::{charset_text, decode_charset};
use crate::mail::html::{clean_text, cleaned, html_text, strip_html};
use crate::mail::mime::{
    byte_views, field_or_empty, head_and_body, header_chars, header_fields, header_param,
    header_views, multipart, param, parse_headers, split_head_body, walk_multipart,
};
use crate::mail::transfer::{base64_bytes, decode_base64_bytes, decode_qp, quoted_printable};
use crate::mail::words::{decode_mime_header, header_text};
use crate::text::{
    ascii_lower, blank, chars_of, contains, contains_text, find_class, is_text, lemma_blank,
    lemma_next, lemma_next_is, next, occurs, same_ci, string_of, texts, trim, trimmed, within, Class,
};
use crate::unicode::{lower_case, to_lowercase};

verus! {

/// A mail message as the notifier sees it.
pub struct ParsedMessage {
    pub subject: String,
    pub from: String,
    pub body: String,
}

/// What a mail message says.
#[verifier::ext_equal]
pub struct MailView {
    pub subject: Seq<char>,
    pub from: Seq<char>,
    pub body: Seq<char>,
}

impl View for ParsedMessage {
    type V = MailView;

    open spec fn view(&self) -> MailView {
        MailView { subject: self.subject@, from: self.from@, body: self.body@ }
    }
}

// ───────────────────────── keywords and codes ─────────────────────────

/// Whether any of `keys` stands in `text`.
pub open spec fn any_within(text: Seq<char>, keys: Seq<Seq<char>>) -> bool {
    exists|i: int| 0 <= i < keys.len() && within(text, #[trigger] keys[i])
}

/// Whether any of `keys` stands in `text`.
pub fn contains_any(text: &[char], keys: &[Vec<char>]) -> (r: bool)
    ensures
        r == any_within(text@, Seq::new(keys@.len(), |i: int| keys@[i]@)),
{
    let ghost k = Seq::new(keys@.len(), |i: int| keys@[i]@);
    let mut i: usize = 0;
    while i < keys.len()
        invariant
            i <= keys@.len(),
            k == Seq::new(keys@.len(), |i: int| keys@[i]@),
            forall|j: int| 0 <= j < i ==> !within(text@, #[trigger] k[j]),
        decreases keys.len() - i,
    {
        if contains(text, keys[i].as_slice()) {
            assert(within(text@, k[i as int]));
            return true;
        }
        i += 1;
    }
    false
}

/// The lower-case forms of the keywords.
pub open spec fn lowercase_all(keywords: Seq<Seq<char>>) -> Seq<Seq<char>> {
    Seq::new(keywords.len(), |i: int| lower_case(keywords[i]))
}

/// Whether any of the keywords stands in `text`, in any case.
pub fn has_match_keyword(text: &str, keywords: &[String]) -> (r: bool)
    ensures
        r == any_within(lower_case(text@), lowercase_all(texts(keywords@))),
{
    let low: Vec<char> = chars_of(to_lowercase(text).as_str());
    let mut keys: Vec<Vec<char>> = Vec::new();
    let mut i: usize = 0;
    while i < keywords.len()
        invariant
            i <= keywords@.len(),
            keys@.len() == i,
            forall|j: int| 0 <= j < i ==> (#[trigger] keys@[j])@ == lower_case(keywords@[j]@),
        decreases keywords.len() - i,
    {
        keys.push(chars_of(to_lowercase(keywords[i].as_str()).as_str()));
        i += 1;
    }
    assert(Seq::new(keys@.len(), |i: int| keys@[i]@) =~= lowercase_all(texts(keywords@)));
    contains_any(low.as_slice(), keys.as_slice())
}

/// The verification code in a mail: the first run of exactly six digits, or else of five, or
/// else of four. A longer run of digits holds no code.
pub fn extract_code(text: &str) -> (r: Option<String>)
    ensures
        match r {
            Some(c) => longest_code(text@, 4, 6) == Some(c@),
            None => longest_code(text@, 4, 6) is None,
        },
{
    let s: Vec<char> = chars_of(text);
    match find_code(s.as_slice(), 4, 6) {
        Some(c) => Some(string_of(c)),
        None => None,
    }
}

// ───────────────────────── one part ─────────────────────────

/// The bytes of a part once the transfer encoding with that name is undone.
pub open spec fn transferred_as(cte: Seq<char>, b: Seq<u8>) -> Seq<u8> {
    if cte == "base64"@ {
        base64_bytes(b)
    } else if cte == "quoted-printable"@ {
        quoted_printable(b)
    } else {
        b
    }
}

/// The bytes of a part with the header `h` once its transfer encoding is undone.
pub open spec fn transferred(h: Seq<(Seq<char>, Seq<char>)>, b: Seq<u8>) -> Seq<u8> {
    transferred_as(trimmed(lower_case(field_or_empty(h, "content-transfer-encoding"@))), b)
}

/// Undoes the transfer encoding with the name `cte`.
pub fn undo_transfer(cte: &[char], body: &[u8]) -> (r: Vec<u8>)
    ensures
        r@ == transferred_as(cte@, body@),
{
    if is_text(cte, "base64") {
        decode_base64_bytes(body)
    } else if is_text(cte, "quoted-printable") {
        decode_qp(body)
    } else {
        vstd::slice::slice_to_vec(body)
    }
}

/// Undoes the transfer encoding of a part.
pub fn decode_part(headers: &[(String, String)], body: &[u8]) -> (r: Vec<u8>)
    ensures
        r@ == transferred(header_views(headers@), body@),
{
    let raw: Vec<char> = header_chars(headers, "content-transfer-encoding");
    let low: Vec<char> = lower_chars(raw.as_slice());
    undo_transfer(trim(low.as_slice()), body)
}

/// The plain text and the HTML text found in a message so far, and the text of a part that is
/// declared as something else and came before both.
pub struct Found {
    pub text: Option<Seq<char>>,
    pub html: Option<Seq<char>>,
    pub other: Option<Seq<char>>,
}

/// Nothing is found yet.
pub open spec fn nothing_found() -> Found {
    Found { text: None, html: None, other: None }
}

/// A content type names a type: a slash stands in it, before the parameters.
pub open spec fn names_type(ct: Seq<char>) -> bool {
    next(ct, Class::Is('/'), 0) < next(ct, Class::Is(';'), 0)
}

/// One more part, with its content type in small letters and its text. The first plain text and
/// the first HTML text count. Where nothing has been found yet, any other part that is not blank
/// counts too: as plain text where it is `loose`, and otherwise apart.
pub open spec fn found_text(f: Found, ct: Seq<char>, s: Seq<char>, loose: bool) -> Found {
    if within(ct, "text/plain"@) && f.text is None {
        Found { text: Some(s), ..f }
    } else if within(ct, "text/html"@) && f.html is None {
        Found { html: Some(s), ..f }
    } else if f == nothing_found() && !blank(s) {
        if loose {
            Found { text: Some(s), ..f }
        } else {
            Found { other: Some(s), ..f }
        }
    } else {
        f
    }
}

/// One more part, with its header and its bytes. Where the header names no type, or `loose` says
/// so, it counts as plain text where nothing has been found yet.
pub open spec fn found_part(
    f: Found,
    h: Seq<(Seq<char>, Seq<char>)>,
    b: Seq<u8>,
    loose: bool,
) -> Found {
    let ct = lower_case(field_or_empty(h, "content-type"@));
    found_text(f, ct, charset_text(b, param(ct, "charset"@)), loose || !names_type(ct))
}

/// A part that is not taken apart any further.
pub open spec fn found_leaf(f: Found, part: Seq<u8>) -> Found {
    let (head, body) = head_and_body(part);
    let h = header_fields(head);
    found_part(f, h, transferred(h, body), false)
}

/// The parts inside a part.
pub open spec fn found_leaves(f: Found, parts: Seq<Seq<u8>>) -> Found
    decreases parts.len(),
{
    if parts.len() == 0 {
        f
    } else {
        found_leaf(found_leaves(f, parts.drop_last()), parts.last())
    }
}

/// A part of the message. One that is itself multipart is taken apart once more, at the
/// boundary that it declares; where it declares none, it is read as text.
pub open spec fn found_outer(f: Found, part: Seq<u8>) -> Found {
    let (head, body) = head_and_body(part);
    let h = header_fields(head);
    let ct = field_or_empty(h, "content-type"@);
    let b = transferred(h, body);
    if within(lower_case(ct), "multipart/"@) {
        match param(ct, "boundary"@) {
            Some(inner) => found_leaves(f, multipart(b, inner)),
            None => if b.len() > 0 {
                found_part(f, h, b, true)
            } else {
                f
            },
        }
    } else {
        found_part(f, h, b, false)
    }
}

/// All parts of the message.
pub open spec fn found_all(f: Found, parts: Seq<Seq<u8>>) -> Found
    decreases parts.len(),
{
    if parts.len() == 0 {
        f
    } else {
        found_outer(found_all(f, parts.drop_last()), parts.last())
    }
}

/// What is found in the body of a message with the header `h`. Where a boundary is declared,
/// the parts that it delimits are looked at; a body in which it delimits none is read as a
/// whole. Without a boundary the body is one text.
pub open spec fn found_in(h: Seq<(Seq<char>, Seq<char>)>, body: Seq<u8>) -> Found {
    let ct = field_or_empty(h, "content-type"@);
    let is_html = within(lower_case(ct), "text/html"@);
    let charset = param(ct, "charset"@);
    match param(ct, "boundary"@) {
        Some(boundary) => {
            let parts = multipart(body, boundary);
            let s = charset_text(body, charset);
            if parts.len() > 0 || body.len() == 0 {
                found_all(nothing_found(), parts)
            } else if is_html {
                Found { html: Some(s), ..nothing_found() }
            } else {
                Found { text: Some(s), ..nothing_found() }
            }
        },
        None => {
            let s = charset_text(transferred(h, body), charset);
            if is_html {
                Found { html: Some(s), ..nothing_found() }
            } else {
                Found { text: Some(s), ..nothing_found() }
            }
        },
    }
}

/// The text to show: the plain text, cleaned, or else the HTML text without its markup. Blank
/// texts do not count. Where there is neither, the text of another part serves as plain text.
pub open spec fn shown(f: Found) -> Seq<char> {
    match f.text {
        Some(t) if !blank(t) => cleaned(t),
        _ => match f.html {
            Some(t) if !blank(t) => html_text(t),
            _ => match f.other {
                Some(t) => cleaned(t),
                None => seq![],
            },
        },
    }
}

/// The plain text of a message.
pub open spec fn body_text(h: Seq<(Seq<char>, Seq<char>)>, body: Seq<u8>) -> Seq<char> {
    shown(found_in(h, body))
}

/// The subject of a raw message.
pub open spec fn message_subject(raw: Seq<u8>) -> Seq<char> {
    header_text(trimmed(field_or_empty(header_fields(head_and_body(raw).0), "subject"@)))
}

/// The sender of a raw message.
pub open spec fn message_from(raw: Seq<u8>) -> Seq<char> {
    header_text(trimmed(field_or_empty(header_fields(head_and_body(raw).0), "from"@)))
}

/// The plain text of a raw message.
pub open spec fn message_body(raw: Seq<u8>) -> Seq<char> {
    let (head, body) = head_and_body(raw);
    body_text(header_fields(head), body)
}

/// What a raw message says.
pub open spec fn mail_of(raw: Seq<u8>) -> MailView {
    MailView {
        subject: message_subject(raw),
        from: message_from(raw),
        body: message_body(raw),
    }
}

// ───────────────────────── the whole message ─────────────────────────

/// The plain text and the HTML text found in a message so far, and the text of a part that is
/// declared as something else and came before both.
pub struct Bodies {
    pub text: Option<Vec<char>>,
    pub html: Option<Vec<char>>,
    pub other: Option<Vec<char>>,
}

impl View for Bodies {
    type V = Found;

    open spec fn view(&self) -> Found {
        Found {
            text: match self.text {
                Some(t) => Some(t@),
                None => None,
            },
            html: match self.html {
                Some(t) => Some(t@),
                None => None,
            },
            other: match self.other {
                Some(t) => Some(t@),
                None => None,
            },
        }
    }
}

/// Whether `s` holds nothing but white space.
pub fn is_blank(s: &[char]) -> (r: bool)
    ensures
        r == blank(s@),
{
    proof {
        lemma_blank(s@);
    }
    trim(s).len() == 0
}

/// The lower-case form of `s`.
pub fn lower_chars(s: &[char]) -> (r: Vec<char>)
    ensures
        r@ == lower_case(s@),
{
    chars_of(to_lowercase(string_of(s).as_str()).as_str())
}

/// Whether a content type names a type.
pub fn has_type(ct: &[char]) -> (r: bool)
    ensures
        r == names_type(ct@),
{
    find_class(ct, Class::Is('/'), 0) < find_class(ct, Class::Is(';'), 0)
}

/// Takes one more part into account, given its content type in small letters and its text.
pub fn add_text(found: Bodies, ct: &[char], s: Vec<char>, loose: bool) -> (r: Bodies)
    ensures
        r@ == found_text(found@, ct@, s@, loose),
{
    let first: bool = found.text.is_none() && found.html.is_none() && found.other.is_none();
    if contains_text(ct, "text/plain") && found.text.is_none() {
        Bodies { text: Some(s), html: found.html, other: found.other }
    } else if contains_text(ct, "text/html") && found.html.is_none() {
        Bodies { text: found.text, html: Some(s), other: found.other }
    } else if first && !is_blank(s.as_slice()) {
        if loose {
            Bodies { text: Some(s), html: None, other: None }
        } else {
            Bodies { text: None, html: None, other: Some(s) }
        }
    } else {
        found
    }
}

/// Takes one more part into account.
pub fn pick_text(
    found: Bodies,
    headers: &[(String, String)],
    decoded: &[u8],
    loose: bool,
) -> (r: Bodies)
    ensures
        r@ == found_part(found@, header_views(headers@), decoded@, loose),
{
    let ct_raw: Vec<char> = header_chars(headers, "content-type");
    let ct: Vec<char> = lower_chars(ct_raw.as_slice());
    let s: Vec<char> = decode_charset(decoded, header_param(ct.as_slice(), "charset"));
    let loose: bool = loose || !has_type(ct.as_slice());
    add_text(found, ct.as_slice(), s, loose)
}

/// Takes the parts inside a part into account.
fn pick_leaves(found: Bodies, data: &[u8], boundary: &[char]) -> (r: Bodies)
    ensures
        r@ == found_leaves(found@, multipart(data@, boundary@)),
{
    let parts: Vec<&[u8]> = walk_multipart(data, boundary);
    let ghost start = found@;
    let ghost v = byte_views(parts@);
    let mut all: Bodies = found;
    let mut i: usize = 0;
    while i < parts.len()
        invariant
            i <= parts@.len(),
            v == byte_views(parts@),
            all@ == found_leaves(start, v.take(i as int)),
        decreases parts.len() - i,
    {
        assert(v.take(i + 1).drop_last() =~= v.take(i as int));
        assert(v.take(i + 1).last() == parts@[i as int]@);
        let (head, body) = split_head_body(parts[i]);
        let headers: Vec<(String, String)> = parse_headers(head);
        let decoded: Vec<u8> = decode_part(headers.as_slice(), body);
        all = pick_text(all, headers.as_slice(), decoded.as_slice(), false);
        i += 1;
    }
    assert(v.take(i as int) =~= v);
    all
}

/// Takes one part of the message into account.
fn pick_outer(found: Bodies, part: &[u8]) -> (r: Bodies)
    ensures
        r@ == found_outer(found@, part@),
{
    let (head, body) = split_head_body(part);
    let headers: Vec<(String, String)> = parse_headers(head);
    let ct: Vec<char> = header_chars(headers.as_slice(), "content-type");
    let low: Vec<char> = lower_chars(ct.as_slice());
    let decoded: Vec<u8> = decode_part(headers.as_slice(), body);
    if contains_text(low.as_slice(), "multipart/") {
        match header_param(ct.as_slice(), "boundary") {
            Some(inner) => pick_leaves(found, decoded.as_slice(), inner),
            None => if decoded.len() > 0 {
                pick_text(found, headers.as_slice(), decoded.as_slice(), true)
            } else {
                found
            },
        }
    } else {
        pick_text(found, headers.as_slice(), decoded.as_slice(), false)
    }
}

/// The one text of a body that has no parts.
fn one_body(is_html: bool, s: Vec<char>) -> (r: Bodies)
    ensures
        r@ == (if is_html {
            Found { html: Some(s@), ..nothing_found() }
        } else {
            Found { text: Some(s@), ..nothing_found() }
        }),
{
    if is_html {
        Bodies { text: None, html: Some(s), other: None }
    } else {
        Bodies { text: Some(s), html: None, other: None }
    }
}

/// Looks for the texts in the body of a message.
pub fn find_bodies(headers: &[(String, String)], body: &[u8]) -> (r: Bodies)
    ensures
        r@ == found_in(header_views(headers@), body@),
{
    let ct: Vec<char> = header_chars(headers, "content-type");
    let low: Vec<char> = lower_chars(ct.as_slice());
    let is_html: bool = contains_text(low.as_slice(), "text/html");
    let charset: Option<&[char]> = header_param(ct.as_slice(), "charset");
    match header_param(ct.as_slice(), "boundary") {
        Some(boundary) => {
            let parts: Vec<&[u8]> = walk_multipart(body, boundary);
            let ghost v = byte_views(parts@);
            if parts.len() == 0 && body.len() > 0 {
                let s: Vec<char> = decode_charset(body, charset);
                return one_body(is_html, s);
            }
            let ghost start = nothing_found();
            let mut all: Bodies = Bodies { text: None, html: None, other: None };
            let mut i: usize = 0;
            while i < parts.len()
                invariant
                    i <= parts@.len(),
                    v == byte_views(parts@),
                    all@ == found_all(start, v.take(i as int)),
                decreases parts.len() - i,
            {
                assert(v.take(i + 1).drop_last() =~= v.take(i as int));
                assert(v.take(i + 1).last() == parts@[i as int]@);
                all = pick_outer(all, parts[i]);
                i += 1;
            }
            assert(v.take(i as int) =~= v);
            all
        },
        None => {
            let decoded: Vec<u8> = decode_part(headers, body);
            let s: Vec<char> = decode_charset(decoded.as_slice(), charset);
            one_body(is_html, s)
        },
    }
}

/// The text to show of what was found in a message.
pub fn show_bodies(found: &Bodies) -> (r: Vec<char>)
    ensures
        r@ == shown(found@),
{
    if let Some(t) = &found.text {
        if !is_blank(t.as_slice()) {
            return clean_text(t.as_slice());
        }
    }
    if let Some(t) = &found.html {
        if !is_blank(t.as_slice()) {
            return strip_html(t.as_slice());
        }
    }
    if let Some(t) = &found.other {
        return clean_text(t.as_slice());
    }
    let none: Vec<char> = Vec::new();
    assert(none@ =~= seq![]);
    none
}

/// The plain text of a message: of its plain part, or else of its HTML part, or else of another
/// part where it has neither.
pub fn extract_body(headers: &[(String, String)], body: &[u8]) -> (r: Vec<char>)
    ensures
        r@ == body_text(header_views(headers@), body@),
{
    show_bodies(&find_bodies(headers, body))
}

/// Reads a raw message.
pub fn parse(raw: &[u8]) -> (r: ParsedMessage)
    ensures
        r@ == mail_of(raw@),
{
    let (head, body) = split_head_body(raw);
    let headers: Vec<(String, String)> = parse_headers(head);
    let subject: Vec<char> = header_chars(headers.as_slice(), "subject");
    let from: Vec<char> = header_chars(headers.as_slice(), "from");
    let text: Vec<char> = extract_body(headers.as_slice(), body);
    ParsedMessage {
        subject: string_of(decode_mime_header(trim(subject.as_slice())).as_slice()),
        from: string_of(decode_mime_header(trim(from.as_slice())).as_slice()),
        body: string_of(text.as_slice()),
    }
}

// ───────────────────────── laws ─────────────────────────

/// Plain text comes before HTML, and both come before any other part: where there is plain text
/// that is not blank, the rest does not matter; where there is none, it is the HTML text that is
/// shown, without its markup; and only where there is neither is another part shown.
pub proof fn plain_text_is_preferred(
    f: Found,
    html: Option<Seq<char>>,
    other: Option<Seq<char>>,
)
    ensures
        f.text matches Some(t) ==> !blank(t) ==> shown(f) == cleaned(t) && shown(
            (Found { html, other, ..f }),
        ) == shown(f),
        (f.text matches Some(t) ==> blank(t)) ==> (f.html matches Some(t) ==> !blank(t) ==> shown(f)
            == html_text(t)),
        (f.html matches Some(t) && !blank(t)) ==> shown((Found { other, ..f })) == shown(f),
        (f.text matches Some(t) ==> blank(t)) && (f.html matches Some(t) ==> blank(t)) ==> shown(f)
            == (match f.other {
            Some(t) => cleaned(t),
            None => seq![],
        }),
{
}

/// A part that is declared as something other than plain text and HTML stands in the way of
/// neither, wherever it comes in the message.
pub proof fn other_parts_do_not_matter(f: Found, h: Seq<(Seq<char>, Seq<char>)>, b: Seq<u8>)
    requires
        names_type(lower_case(field_or_empty(h, "content-type"@))),
        !within(lower_case(field_or_empty(h, "content-type"@)), "text/plain"@),
        !within(lower_case(field_or_empty(h, "content-type"@)), "text/html"@),
    ensures
        found_part(f, h, b, false).text == f.text,
        found_part(f, h, b, false).html == f.html,
        f != nothing_found() ==> found_part(f, h, b, false) == f,
{
}

/// The text of a part that names no type counts as plain text where nothing has been found before
/// it: it is what is shown, whatever parts come after it.
pub proof fn parts_without_a_type_are_plain_text(
    h: Seq<(Seq<char>, Seq<char>)>,
    b: Seq<u8>,
    rest: Seq<Seq<u8>>,
)
    requires
        !names_type(lower_case(field_or_empty(h, "content-type"@))),
        ({
            let ct = lower_case(field_or_empty(h, "content-type"@));
            &&& !within(ct, "text/plain"@)
            &&& !within(ct, "text/html"@)
            &&& !blank(charset_text(b, param(ct, "charset"@)))
        }),
    ensures
        shown(found_all(found_part(nothing_found(), h, b, false), rest)) == cleaned(
            charset_text(b, param(lower_case(field_or_empty(h, "content-type"@)), "charset"@)),
        ),
{
    lemma_text_stays(found_part(nothing_found(), h, b, false), rest);
}

/// The plain text that was found is the one that stays, whatever parts come after it.
pub proof fn lemma_text_stays(f: Found, parts: Seq<Seq<u8>>)
    requires
        f.text is Some,
    ensures
        found_all(f, parts).text == f.text,
    decreases parts.len(),
{
    if parts.len() > 0 {
        lemma_text_stays(f, parts.drop_last());
        let g = found_all(f, parts.drop_last());
        let (head, body) = head_and_body(parts.last());
        let h = header_fields(head);
        let ct = field_or_empty(h, "content-type"@);
        if let Some(inner) = param(ct, "boundary"@) {
            lemma_leaves_stay(g, multipart(transferred(h, body), inner));
        }
    }
}

/// The same for the parts inside a part.
pub proof fn lemma_leaves_stay(f: Found, parts: Seq<Seq<u8>>)
    requires
        f.text is Some,
    ensures
        found_leaves(f, parts).text == f.text,
    decreases parts.len(),
{
    if parts.len() > 0 {
        lemma_leaves_stay(f, parts.drop_last());
    }
}

/// A keyword counts in any case: where it stands in an ASCII text, in capitals or in small
/// letters, the text matches.
pub proof fn keywords_match_in_any_case(
    before: Seq<char>,
    shown: Seq<char>,
    after: Seq<char>,
    keywords: Seq<Seq<char>>,
    k: int,
)
    requires
        is_ascii_chars(before + shown + after),
        0 <= k < keywords.len(),
        is_ascii_chars(keywords[k]),
        same_ci(shown, keywords[k]),
    ensures
        any_within(lower_case(before + shown + after), lowercase_all(keywords)),
{
    let low = lower_case(before + shown + after);
    let key = ascii_lower(shown);
    let n = before.len() as int;
    assert(low.subrange(n, n + key.len()) =~= key);
    assert(occurs(low, key, n));
    assert(lowercase_all(keywords)[k] == key);
}

/// Parts are looked at one after the other.
pub proof fn lemma_found_concat(f: Found, a: Seq<Seq<u8>>, b: Seq<Seq<u8>>)
    ensures
        found_all(f, a + b) == found_all(found_all(f, a), b),
        found_leaves(f, a + b) == found_leaves(found_leaves(f, a), b),
    decreases b.len(),
{
    if b.len() == 0 {
        assert(a + b =~= a);
    } else {
        lemma_found_concat(f, a, b.drop_last());
        assert((a + b).drop_last() =~= a + b.drop_last());
        assert((a + b).last() == b.last());
    }
}

/// The first plain text that is found stays, and so do the first HTML text and the first text of
/// another part.
pub proof fn the_first_texts_stay(f: Found, h: Seq<(Seq<char>, Seq<char>)>, b: Seq<u8>, loose: bool)
    ensures
        f.text is Some ==> found_part(f, h, b, loose).text == f.text,
        f.html is Some ==> found_part(f, h, b, loose).html == f.html,
        f.other is Some ==> found_part(f, h, b, loose).other == f.other,
{
}

/// A part without anything in it, and without a type of text, counts for nothing.
pub proof fn blank_parts_do_not_count(
    f: Found,
    h: Seq<(Seq<char>, Seq<char>)>,
    b: Seq<u8>,
    loose: bool,
)
    requires
        ({
            let ct = lower_case(field_or_empty(h, "content-type"@));
            &&& !within(ct, "text/plain"@)
            &&& !within(ct, "text/html"@)
            &&& blank(charset_text(b, param(ct, "charset"@)))
        }),
    ensures
        found_part(f, h, b, loose) == f,
{
}

/// A type has a slash in it, and stands before the parameters: a slash in these makes no type.
pub proof fn a_type_stands_before_the_parameters(a: Seq<char>, b: Seq<char>)
    requires
        !a.contains(';'),
        !a.contains('/'),
    ensures
        names_type(a + seq!['/'] + b),
        !names_type(a + seq![';'] + b),
        !names_type(a),
{
    let n = a.len() as int;
    let s = a + seq!['/'] + b;
    let t = a + seq![';'] + b;
    assert forall|i: int| 0 <= i < n implies !Class::Is('/').admits(#[trigger] a[i])
        && !Class::Is(';').admits(a[i]) by {
        assert(a.contains(a[i]));
    }
    assert forall|i: int| 0 <= i < n implies #[trigger] s[i] == a[i] && t[i] == a[i] by {}
    assert forall|i: int| 0 <= i < n implies !Class::Is('/').admits(#[trigger] t[i])
        && !Class::Is(';').admits(t[i]) by {
        assert(t[i] == a[i]);
    }
    assert(s[n] == '/');
    assert(t[n] == ';');
    lemma_next_is(s, Class::Is('/'), 0, n);
    lemma_next(s, Class::Is(';'), 0);
    let k = next(s, Class::Is(';'), 0);
    if k <= n {
        assert(Class::Is(';').admits(s[k]));
    }
    lemma_next_is(t, Class::Is(';'), 0, n);
    lemma_next(t, Class::Is('/'), 0);
    let j = next(t, Class::Is('/'), 0);
    if j < n {
        assert(Class::Is('/').admits(t[j]));
    }
    lemma_next_is(a, Class::Is('/'), 0, n);
    lemma_next_is(a, Class::Is(';'), 0, n);
}

} // verus!
