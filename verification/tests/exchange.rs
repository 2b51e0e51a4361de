use base64::engine::general_purpose::STANDARD;
use base64::Engine;

use sms_notifier::browser::center;
use sms_notifier::http::{parse_request_line, query_param, route_http, Site};
use sms_notifier::mail::config::Account;
use sms_notifier::mail::imap_client::ImapClient;
use sms_notifier::mail::imap_lines::quote;
use sms_notifier::mail::listener::notify_message;
use sms_notifier::mail::message::{has_match_keyword, parse};
use sms_notifier::mail::transfer::decode_base64_bytes;
use sms_notifier::mail::words::decode_mime_header;
use sms_notifier::sms::{react, SmsMessage};

fn all_bytes() -> Vec<u8> {
    (0..=255).collect()
}

fn url_form(text: &str) -> String {
    text.bytes().map(|b| format!("%{b:02X}")).collect()
}

fn header(s: &str) -> String {
    decode_mime_header(&s.chars().collect::<Vec<char>>()).into_iter().collect()
}

#[test]
fn any_text_can_be_sent_in_a_url() {
    for text in ["1234", "a&b=c+d%", "【公司】验证码 8888\n", ""] {
        let query = format!("x=1&code=0&code={}", url_form(text));
        assert_eq!(query_param(&query, "code").as_deref(), Some(text));
    }
}

#[test]
fn a_code_goes_from_the_request_to_the_keyboard() {
    let site =
        Site { is_local: false, ws_port: 1, lines: Vec::new(), page: String::new() };
    let line = format!("POST /?code={} HTTP/1.1\r\n", url_form("98 76"));
    let r = parse_request_line(&line);
    let answer = route_http(&r.method, &r.path, &r.query, &site);
    assert_eq!(answer.status, 200);
    let reaction = react(answer.message.unwrap()).unwrap();
    assert_eq!(reaction.paste, Some(("98 76".to_string(), true)));
    assert_eq!(reaction.show, Some(("收到验证码".to_string(), "98 76".to_string())));
    assert_eq!(reaction.warning, None);
}

#[test]
fn base64_gives_back_what_was_written() {
    let all = all_bytes();
    for n in 0..all.len() {
        let written = STANDARD.encode(&all[..n]);
        assert_eq!(decode_base64_bytes(written.as_bytes()), &all[..n]);
        let lines: String = written.chars().map(|c| format!("{c}\r\n\t ")).collect();
        assert_eq!(decode_base64_bytes(lines.as_bytes()), &all[..n]);
    }
}

#[test]
fn headers_give_back_what_was_encoded() {
    let text = "验证码 = 1234?";
    let b = format!("=?utf-8?B?{}?=", STANDARD.encode(text));
    let q: String = text.bytes().map(|b| format!("={b:02X}")).collect();
    let q = format!("=?utf-8?Q?{q}?=");
    assert_eq!(header(&b), text);
    assert_eq!(header(&q), text);
    assert_eq!(header(&format!("{b} \t{q}")), format!("{text}{text}"));
    assert_eq!(header(&format!("{b} x {q}")), format!("{text} x {text}"));
}

#[test]
fn any_bytes_can_be_fetched() {
    let mut body = b"A1 OK\r\n* {3}\r\n)\r\n".to_vec();
    body.extend(all_bytes());
    for size in [1, 7, 1000] {
        let mut c = ImapClient::new();
        let (line, mut fetch) = c.uid_fetch_rfc822(9);
        assert_eq!(line, "A1 UID FETCH 9 (RFC822)\r\n");
        let mut sent = format!("* 1 FETCH (UID 9 RFC822 {{{}}}\r\n", body.len()).into_bytes();
        sent.extend(&body);
        sent.extend(b")\r\nA1 OK done\r\n* rest");
        let mut end = None;
        for piece in sent.chunks(size) {
            c.feed(piece);
            if end.is_none() {
                end = c.receive_fetch(&mut fetch);
            }
        }
        assert!(matches!(end, Some(Ok(()))));
        assert_eq!(fetch.body.as_ref(), Some(&body));
        assert_eq!(c.buf, b"* rest");
    }
}

#[test]
fn listed_messages_come_in_order() {
    let found = |s: &str| ImapClient::found_uids(true, &[s.to_string()]).ok().unwrap();
    assert_eq!(found("* SEARCH 7 4294967295 0"), [0, 7, 4294967295]);
    assert_eq!(found("* search 7"), [7]);
    assert_eq!(found("* SEARCH"), Vec::<u32>::new());
}

#[test]
fn quoted_arguments_can_be_read_back() {
    for s in ["", "a b", "\\ \"", "\t\\\\\"\"", "x \" y"] {
        let mut out = Vec::new();
        quote(&mut out, s);
        assert_eq!((out[0], *out.last().unwrap()), ('"', '"'));
        let mut meant = String::new();
        let mut inner = out[1..out.len() - 1].iter();
        while let Some(&c) = inner.next() {
            assert_ne!(c, '"');
            meant.push(if c == '\\' { *inner.next().unwrap() } else { c });
        }
        assert_eq!(meant, s);
    }
}

#[test]
fn keywords_are_found_in_capitals() {
    let keys = ["Login Code".to_string()];
    assert!(has_match_keyword("your LOGIN CODE: 1", &keys));
    assert!(has_match_keyword("your login code", &keys));
    assert!(!has_match_keyword("your login  code", &keys));
    assert!(has_match_keyword("ÄÖ", &["äö".to_string()]));
}

#[test]
fn a_plain_mail_is_read_and_its_code_is_pasted() {
    let raw = "Subject: Your code\r\nFrom: 公司 <a@b>\r\n\r\nIt is  123456 \r\n\r\n\r\nbye\r\n";
    let m = parse(raw.as_bytes());
    assert_eq!(m.subject, "Your code");
    assert_eq!(m.from, "公司 <a@b>");
    assert_eq!(m.body, "It is  123456\nbye");
    let account = Account {
        email: "me@x".to_string(),
        label: Some("Me".to_string()),
        server: String::new(),
        port: 993,
        password: String::new(),
        poll_interval: 30,
        last_ok_interval: None,
    };
    let (_, message) = notify_message(&m, &account, false, &["CODE".to_string()]);
    match message {
        Some(SmsMessage::Notify { title, body, auto_paste, submit }) => {
            assert_eq!(title, "📧 新邮件 (Me)｜Your code");
            assert_eq!(body, "123456");
            assert!(auto_paste && !submit);
        }
        _ => panic!("expected a notification"),
    }
}

#[test]
fn windows_can_be_centered_on_any_screen() {
    assert_eq!(center(1920, 1000), 460);
    assert_eq!(center(799, 1000), -100);
    assert_eq!(center(i32::MAX, i32::MIN), i32::MAX);
    assert_eq!(center(i32::MIN, i32::MAX), -i32::MAX);
}
