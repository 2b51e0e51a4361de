use sms_notifier::mail::charset::{classify_charset, decode_charset, Charset};
use sms_notifier::mail::html::{clean_text, strip_html, strip_tags, unescape_html};
use sms_notifier::mail::message::{extract_body, has_match_keyword, parse};
use sms_notifier::mail::mime::{header_param, parse_headers, split_head_body, walk_multipart};
use sms_notifier::mail::transfer::{decode_base64_bytes, decode_qp, decode_qp_word};
use sms_notifier::mail::words::decode_mime_header;

fn chars(s: &str) -> Vec<char> {
    s.chars().collect()
}

fn text(v: Vec<char>) -> String {
    v.into_iter().collect()
}

fn header(s: &str) -> String {
    text(decode_mime_header(&chars(s)))
}

// ───────────────────────── encodings ─────────────────────────

#[test]
fn base64_is_read_through_white_space() {
    assert_eq!(decode_base64_bytes(b"aGVs\r\nbG8=\n"), b"hello");
    assert_eq!(decode_base64_bytes(b" a b!c "), b"ab!c");
    for no_base64 in ["YQ", "YQ=", "YQ===", "YR==", "YWJ=", "YQ==YQ==", "====", "Y", "YW_-"] {
        assert_eq!(decode_base64_bytes(no_base64.as_bytes()), no_base64.as_bytes());
    }
    assert_eq!(decode_base64_bytes(b"aGVsbG8"), b"aGVsbG8");
    assert_eq!(decode_base64_bytes(b""), b"");
}

#[test]
fn quoted_printable_is_read() {
    assert_eq!(decode_qp(b"a=3Db=\r\nc=\nd=e4=E4"), b"a=bcd\xe4\xe4");
    assert_eq!(decode_qp(b"=G1=1"), b"=G1=1");
    assert_eq!(decode_qp(b"="), b"=");
    assert_eq!(decode_qp(b"a_b"), b"a_b");
    assert_eq!(decode_qp_word(b"a_b=20c=\n"), b"a b c=\n");
    let all: Vec<u8> = (0..=255).collect();
    let written: Vec<u8> = all.iter().flat_map(|b| format!("={b:02X}").into_bytes()).collect();
    assert_eq!(decode_qp(&written), all);
    assert_eq!(decode_qp_word(&written), all);
}

#[test]
fn charset_labels() {
    assert!(matches!(classify_charset(&chars(" \"UTF-8\" ")), Some(Charset::Utf8)));
    assert!(matches!(classify_charset(&chars("us-ascii")), Some(Charset::Utf8)));
    assert!(matches!(classify_charset(&chars("Windows-1252")), Some(Charset::Latin1)));
    assert!(matches!(classify_charset(&chars("GB2312")), Some(Charset::Gbk)));
    assert!(classify_charset(&chars("big5")).is_none());
    assert!(classify_charset(&chars("")).is_none());
}

#[test]
fn charsets_are_read() {
    let read = |b: &[u8], label: &str| text(decode_charset(b, Some(&chars(label))));
    assert_eq!(read("中文".as_bytes(), "utf-8"), "中文");
    assert_eq!(read(b"a\xffb", "utf-8"), "a\u{fffd}b");
    assert_eq!(read(b"\xd6\xd0\xce\xc4", "utf-8"), "中文");
    assert_eq!(read(b"\xd6\xd0\xce\xc4", "us-ascii"), "中文");
    assert_eq!(read("a\u{fffd}b".as_bytes(), "utf-8"), "a\u{fffd}b");
    assert_eq!(read(b"\xe9\x80", "latin1"), "\u{e9}\u{80}");
    assert_eq!(read(b"\xd6\xd0\xce\xc4", "gbk"), "中文");
    assert_eq!(read(b"\xd6\xd0\xce\xc4", "big5"), "中文");
    assert_eq!(text(decode_charset(b"\xd6\xd0ab", None)), "中ab");
    assert_eq!(text(decode_charset(b"a\xff\xffb", None)), "a\u{fffd}\u{fffd}b");
}

#[test]
fn encoded_words_are_read() {
    assert_eq!(header("=?UTF-8?B?6aqM6K+B56CB?= 123"), "验证码 123");
    assert_eq!(header("=?gb2312?Q?=D6=D0=CE=C4?="), "中文");
    assert_eq!(header("=?iso-8859-1?q?caf=E9_au_lait?="), "café au lait");
    assert_eq!(header("=?utf-8?B?YQ==?= \t =?utf-8?B?Yg==?= c"), "ab c");
    assert_eq!(header("x =?utf-8?B?YQ==?="), "x a");
}

#[test]
fn what_is_no_encoded_word_stays() {
    assert_eq!(header("=?big5?B?YQ==?="), "=?big5?B?YQ==?=");
    assert_eq!(header("=?utf-8?X?YQ==?="), "=?utf-8?X?YQ==?=");
    assert_eq!(header("=?utf-8?B?YQ=="), "=?utf-8?B?YQ==");
    assert_eq!(header("a =? b"), "a =? b");
    assert_eq!(header("=?utf-8?B?YQ==?= =?big5?B?YQ==?="), "a =?big5?B?YQ==?=");
    assert_eq!(header(""), "");
}

// ───────────────────────── structure ─────────────────────────

#[test]
fn header_lines_are_joined() {
    let h = parse_headers(b"Subject: a\r\n b\r\n\tc\r\nX-Y:z\r\nno colon\r\n");
    let got: Vec<(&str, &str)> = h.iter().map(|(k, v)| (k.as_str(), v.as_str())).collect();
    assert_eq!(got, [("subject", "a b c"), ("x-y", "z"), ("", "no colon")]);
    assert!(parse_headers(b"").is_empty());
}

#[test]
fn head_and_body_are_split_at_the_empty_line() {
    assert_eq!(split_head_body(b"a\r\n\r\nb\n\nc"), (&b"a"[..], &b"b\n\nc"[..]));
    assert_eq!(split_head_body(b"a\n\nb\r\n\r\nc"), (&b"a"[..], &b"b\r\n\r\nc"[..]));
    assert_eq!(split_head_body(b"A: b\n\nx\r\n\r\ny"), (&b"A: b"[..], &b"x\r\n\r\ny"[..]));
    assert_eq!(split_head_body(b"a\n\r\nb\r\n\r\nc"), (&b"a\n\r\nb"[..], &b"c"[..]));
    assert_eq!(split_head_body(b"a\n\nb"), (&b"a"[..], &b"b"[..]));
    assert_eq!(split_head_body(b"abc"), (&b"abc"[..], &b""[..]));
    assert_eq!(split_head_body(b"\n\n"), (&b""[..], &b""[..]));
}

#[test]
fn parameters_of_a_field() {
    let param = |s: &str, name: &str| header_param(&chars(s), name).map(|v| text(v.to_vec()));
    let ct = "multipart/mixed; boundary=\"--=_Part 1\"; charset=UTF-8";
    assert_eq!(param(ct, "boundary").as_deref(), Some("--=_Part 1"));
    assert_eq!(param(ct, "charset").as_deref(), Some("UTF-8"));
    assert_eq!(param("a; Boundary=Xy;b", "boundary").as_deref(), Some("Xy"));
    assert_eq!(param("a;CHARSET=gbk x", "charset").as_deref(), Some("gbk"));
    assert_eq!(param("a; xCharset=gbk", "charset"), None);
    assert_eq!(param("a; charset=\"open", "charset").as_deref(), Some("\"open"));
    assert_eq!(param("text/plain", "charset"), None);
    assert_eq!(param("charset=", "charset").as_deref(), Some(""));
}

#[test]
fn multipart_bodies_are_split() {
    let split = |b: &[u8]| -> Vec<Vec<u8>> {
        walk_multipart(b, &chars("Bd")).iter().map(|p| p.to_vec()).collect()
    };
    let body = b"pre\r\n--Bd\r\none\r\n--bD; x=y \r\ntwo\r\n--Bdx\r\n--Bd--\r\n--Bd\r\nafter";
    assert_eq!(split(body), [&b"one\r\n"[..], &b"two\r\n--Bdx\r\n"[..]]);
    assert_eq!(split(b"--Bd\nopen"), [&b"open"[..]]);
    assert_eq!(split(b"--Bd\na\n--Bd"), [&b"a\n"[..], &b""[..]]);
    assert_eq!(split(b"--Bd\na\n--Bd--"), [&b"a\n"[..]]);
    assert!(split(b"nothing here").is_empty());
    assert!(split(b"").is_empty());
}

#[test]
fn the_surroundings_of_a_multipart_body_do_not_count() {
    let parts = |b: &str| -> Vec<Vec<u8>> {
        walk_multipart(b.as_bytes(), &chars("b")).iter().map(|p| p.to_vec()).collect()
    };
    let body = "--b\none\n--b\ntwo\n--b--\n";
    assert_eq!(parts(body), [&b"one\n"[..], &b"two\n"[..]]);
    assert_eq!(parts(&format!("hello\nworld\n{body}")), parts(body));
    assert_eq!(parts(&format!("{body}--b\nmore\n")), parts(body));
}

#[test]
fn odd_boundaries_do_not_stop_the_reader() {
    assert_eq!(walk_multipart("--é\n中\n".as_bytes(), &chars("a")).len(), 0);
    assert_eq!(walk_multipart("--é \n中\n--é--".as_bytes(), &chars("é")), ["中\n".as_bytes()]);
}

// ───────────────────────── text ─────────────────────────

#[test]
fn tags_are_taken_out() {
    let strip = |s: &str| text(strip_tags(&chars(s)));
    assert_eq!(strip("<p>a</p><STYLE x>b</p></style>c"), "ac");
    assert_eq!(strip("a<script>if (x<y) {}</script >b</SCRIPT>c"), "ac");
    assert_eq!(strip("<styles>a</styles>"), "a");
    assert_eq!(strip("a<style>b"), "ab");
    assert_eq!(strip("1 < 2"), "1 < 2");
    assert_eq!(strip("a<>b"), "a<>b");
    assert_eq!(strip("no tags"), "no tags");
}

#[test]
fn entities_are_replaced() {
    let un = |s: &str| text(unescape_html(&chars(s)));
    assert_eq!(un("&amp;&lt;&gt;&quot;&apos;&nbsp;"), "&<>\"' ");
    assert_eq!(un("&#65;&#x4E2d;&#X41;"), "A中A");
    assert_eq!(un("&unknown; &#xD800; &#; &"), "&unknown; &#xD800; &#; &");
    assert_eq!(un("&amp;lt;"), "&lt;");
    assert_eq!(un("plain"), "plain");
}

#[test]
fn html_becomes_trimmed_lines() {
    let html = "<html><body>\n  <h1> Hi </h1>\n\n<p>code&nbsp;<b>123456</b></p>\n</body>";
    assert_eq!(text(strip_html(&chars(html))), "Hi\ncode 123456");
    assert_eq!(text(strip_html(&chars("<p> </p>\n"))), "");
}

#[test]
fn plain_text_is_cleaned() {
    let clean = |s: &str| text(clean_text(&chars(s)));
    assert_eq!(clean("\r\na  \r\n \t\r\n\n b\rc\n\n"), "a\nb\nc");
    assert_eq!(clean("a\n  b"), "a\n  b");
    assert_eq!(clean("a\n\n  b"), "a\nb");
    assert_eq!(clean(""), "");
}

// ───────────────────────── whole messages ─────────────────────────

#[test]
fn keywords_match_in_any_case() {
    let words = |v: &[&str]| -> Vec<String> { v.iter().map(|s| s.to_string()).collect() };
    assert!(has_match_keyword("Your VERIFICATION Code", &words(&["x", "verification code"])));
    assert!(has_match_keyword("ÄÖ", &words(&["äö"])));
    assert!(!has_match_keyword("verification", &words(&["verification code"])));
    assert!(!has_match_keyword("anything", &[]));
    assert!(has_match_keyword("", &words(&[""])));
}

#[test]
fn a_plain_message() {
    let m = parse(
        b"From: =?UTF-8?Q?A=20B?= <a@b>\r\nSubject:  code \r\nContent-Type: text/plain; charset=utf-8\r\n\r\nYour code\r\n\r\nis 123456\r\n",
    );
    assert_eq!(m.subject, "code");
    assert_eq!(m.from, "A B <a@b>");
    assert_eq!(m.body, "Your code\nis 123456");
}

#[test]
fn an_html_message_in_base64() {
    // "<p>验证码 <b>8888</b></p>" in base64.
    let m = parse(
        b"Subject: x\nContent-Type: TEXT/HTML; charset=\"UTF-8\"\nContent-Transfer-Encoding: Base64\n\nPHA+6aqM6K+B56CBIDxi\nPjg4ODg8L2I+PC9wPg==\n",
    );
    assert_eq!(m.body, "验证码 8888");
    assert_eq!(m.from, "");
}

#[test]
fn a_multipart_message_prefers_plain_text() {
    let raw = b"Content-Type: multipart/alternative; boundary=\"AbC\"\r\n\r\n--AbC\r\nContent-Type: text/html\r\n\r\n<p>html</p>\r\n--AbC\r\nContent-Type: text/plain; charset=gbk\r\nContent-Transfer-Encoding: quoted-printable\r\n\r\n=D6=D0 1234\r\n--AbC--\r\n";
    assert_eq!(parse(raw).body, "中 1234");
}

#[test]
fn other_parts_do_not_stand_in_the_way() {
    let body = |parts: &[(&str, &str)]| {
        let mut raw = "Content-Type: multipart/mixed; boundary=B\r\n\r\n".to_string();
        for (ct, text) in parts {
            raw += &format!("--B\r\n{ct}\r\n\r\n{text}\r\n");
        }
        parse(format!("{raw}--B--\r\n").as_bytes()).body
    };
    let json = ("Content-Type: application/json", "{}");
    let plain = ("Content-Type: text/plain", "hello");
    let html = ("Content-Type: text/html", "<p>hi</p>");
    let bare = ("X: y", "bare");
    assert_eq!(body(&[json, plain]), "hello");
    assert_eq!(body(&[plain, json]), "hello");
    assert_eq!(body(&[json, html]), "hi");
    assert_eq!(body(&[json, html, plain]), "hello");
    assert_eq!(body(&[json, bare]), "{}");
    assert_eq!(body(&[json, bare, plain]), "hello");
    assert_eq!(body(&[bare]), "bare");
    assert_eq!(body(&[bare, html]), "bare");
    assert_eq!(body(&[bare, plain]), "bare");
    assert_eq!(body(&[html, bare]), "hi");
    assert_eq!(body(&[("Content-Type: charset=utf-8", "loose"), html]), "loose");
    assert_eq!(body(&[("Content-Type: multipart/mixed", "loose"), html]), "loose");
    let empty = ("Content-Type: text/plain", " ");
    assert_eq!(body(&[json, empty]), "{}");
    assert_eq!(body(&[bare, empty]), "bare");
    assert_eq!(body(&[empty, json]), "");
    assert_eq!(body(&[json, empty, html]), "hi");
    let headers = [("content-type".to_string(), "multipart/mixed; boundary=B".to_string())];
    let raw = b"--B\r\nContent-Type: application/json\r\n\r\n{}\r\n--B\r\nContent-Type: text/plain\r\n\r\nhello\r\n--B--\r\n";
    assert_eq!(text(extract_body(&headers, raw)), "hello");
}

#[test]
fn a_nested_multipart_message() {
    let raw = b"Content-Type: multipart/mixed; boundary=out\n\n--out\nContent-Type: multipart/alternative; Boundary=iN\n\n--iN\nContent-Type: text/plain\n\n  \n--iN\nContent-Type: text/html\n\n<i>hi</i>\n--iN--\n--out--\n";
    assert_eq!(parse(raw).body, "hi");
}

#[test]
fn messages_that_do_not_keep_to_the_rules() {
    assert_eq!(parse(b"").body, "");
    assert_eq!(parse(b"just a head").body, "");
    let none = b"Content-Type: multipart/mixed; boundary=zz\n\nno parts\nhere\n";
    assert_eq!(parse(none).body, "no parts\nhere");
    let html = b"Content-Type: text/html; boundary=zz\n\n<b>no parts</b>\n";
    assert_eq!(parse(html).body, "no parts");
    let other = b"Content-Type: multipart/mixed; boundary=b\n\n--b\nContent-Type: application/x\n\nraw\n--b--\n";
    assert_eq!(parse(other).body, "raw");
    let bare = b"Content-Type: multipart/mixed; boundary=b\n\n--b\nContent-Type: multipart/mixed\n\nraw\n--b--\n";
    assert_eq!(parse(bare).body, "raw");
}
