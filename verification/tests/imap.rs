use sms_notifier::mail::imap_client::{
    check_greeting, Command, Idle, IdlePhase, IdleResult, IdleStep, ImapClient, ImapError,
};
use sms_notifier::mail::imap_lines::{
    extract_internaldate, parse_literal_len, quote, strip_all,
};

fn chars(s: &str) -> Vec<char> {
    s.chars().collect()
}

fn quoted(s: &str) -> String {
    let mut out = Vec::new();
    quote(&mut out, s);
    out.into_iter().collect()
}

fn error_text<T>(r: Result<T, ImapError>) -> String {
    match r {
        Ok(_) => panic!("expected an error"),
        Err(e) => e.describe(),
    }
}

/// Feeds the reply in pieces of `size` bytes.
fn receive(client: &mut ImapClient, cmd: &mut Command, reply: &str, size: usize) -> bool {
    for piece in reply.as_bytes().chunks(size) {
        client.feed(piece);
        if let Some(ok) = client.receive(cmd) {
            return ok;
        }
    }
    panic!("the reply is not complete");
}

#[test]
fn commands_are_numbered() {
    let mut c = ImapClient::new();
    let (line, cmd) = c.select_inbox();
    assert_eq!(line, "A1 SELECT INBOX\r\n");
    assert_eq!(cmd.tag, "A1");
    let (line, _) = c.capability();
    assert_eq!(line, "A2 CAPABILITY\r\n");
    let (line, _) = c.uid_search_all();
    assert_eq!(line, "A3 UID SEARCH ALL\r\n");
    let (line, _) = c.uid_fetch_rfc822(4294967295);
    assert_eq!(line, "A4 UID FETCH 4294967295 (RFC822)\r\n");
    let (line, _) = c.uid_fetch_internaldate(7);
    assert_eq!(line, "A5 UID FETCH 7 (INTERNALDATE)\r\n");
    let (line, _) = c.idle();
    assert_eq!(line, "A6 IDLE\r\n");
    let (line, _) = c.send_id();
    assert_eq!(line, "A7 ID (\"name\" \"Mail Listener\" \"version\" \"1.0\")\r\n");
    let (line, _) = c.login("a@b.c", "p \"w\\");
    assert_eq!(line, "A8 LOGIN a@b.c \"p \\\"w\\\\\"\r\n");
}

#[test]
fn arguments_are_quoted_where_they_need_it() {
    assert_eq!(quoted("abc"), "abc");
    assert_eq!(quoted(""), "\"\"");
    assert_eq!(quoted("a b"), "\"a b\"");
    assert_eq!(quoted("a\u{7f}"), "\"a\u{7f}\"");
    assert_eq!(quoted("pa\"ss"), "\"pa\\\"ss\"");
    assert_eq!(quoted("a\\b"), "\"a\\\\b\"");
    assert_eq!(quoted("a(b)*%{1}"), "a(b)*%{1}");
    assert_eq!(quoted("a\\ \""), "\"a\\\\ \\\"\"");
}

#[test]
fn lines_and_bytes_are_taken_from_what_was_received() {
    let mut c = ImapClient::new();
    c.feed(b"ab\r\ncd\n\r\nxy");
    assert_eq!(c.read_line(), Some(b"ab".to_vec()));
    assert_eq!(c.read_line(), Some(b"cd".to_vec()));
    assert_eq!(c.read_line(), Some(b"".to_vec()));
    assert_eq!(c.read_line(), None);
    assert_eq!(c.read_exact(3), None);
    assert_eq!(c.read_exact(1), Some(b"x".to_vec()));
    c.feed(b"z\n");
    assert_eq!(c.read_line(), Some(b"yz".to_vec()));
    assert_eq!(c.read_exact(0), Some(Vec::new()));
}

#[test]
fn the_greeting_has_to_be_ok() {
    assert!(check_greeting(b"* OK ready").is_ok());
    assert_eq!(error_text(check_greeting(b" * BYE ")), "协议: 非预期问候: * BYE");
}

#[test]
fn errors_in_words() {
    assert_eq!(ImapError::Io("x".to_string()).describe(), "IO: x");
    assert_eq!(ImapError::Tls("x".to_string()).describe(), "TLS: x");
    assert_eq!(ImapError::Protocol("x".to_string()).describe(), "协议: x");
    assert_eq!(ImapError::Auth("x".to_string()).describe(), "登录: x");
}

#[test]
fn replies_do_not_depend_on_the_pieces() {
    let reply = "* one\r\n+ ignored\r\nnoise\r\n* two\r\nA1 ok done\r\n* next";
    for size in 1..reply.len() + 1 {
        let mut c = ImapClient::new();
        let (_, mut cmd) = c.select_inbox();
        assert!(receive(&mut c, &mut cmd, reply, size));
        assert_eq!(cmd.untagged, ["* one", "* two"]);
    }
}

#[test]
fn refusals_are_errors() {
    let mut c = ImapClient::new();
    let (_, mut cmd) = c.select_inbox();
    let ok = receive(&mut c, &mut cmd, "A1 NO such box\r\n", 4096);
    assert!(!ok);
    assert_eq!(error_text(ImapClient::selected(ok)), "协议: select INBOX 失败");
    assert_eq!(
        error_text(ImapClient::logged_in(false)),
        "登录: 登录失败：请确认 config.yaml 中的 password 已替换为真实 IMAP 授权码"
    );
    assert!(ImapClient::logged_in(true).is_ok());
    assert!(ImapClient::selected(true).is_ok());
    assert_eq!(error_text(ImapClient::found_uids(false, &[])), "协议: UID SEARCH 失败");
}

#[test]
fn capabilities_decide_whether_the_server_pushes() {
    let lines = |v: &[&str]| -> Vec<String> { v.iter().map(|s| s.to_string()).collect() };
    let mut c = ImapClient::new();
    assert!(!c.supports_idle());
    c.note_capabilities(false, &lines(&["* CAPABILITY IDLE"]));
    assert!(!c.supports_idle());
    c.note_capabilities(true, &lines(&["* CAPABILITY IMAP4rev1 idle", "* OK"]));
    assert_eq!(c.capabilities, ["IMAP4rev1", "idle"]);
    assert!(c.supports_idle());
    c.note_capabilities(true, &lines(&["* CAPABILITY IDLE", "* CAPABILITY ID"]));
    assert!(!c.supports_idle());
}

#[test]
fn searches_are_sorted() {
    let lines = |v: &[&str]| -> Vec<String> { v.iter().map(|s| s.to_string()).collect() };
    let found = |v: &[&str]| match ImapClient::found_uids(true, &lines(v)) {
        Ok(uids) => uids,
        Err(e) => panic!("{}", e.describe()),
    };
    assert_eq!(found(&["* OK", "* SEARCH 9 x 3 4294967296 7 3", "* SEARCH 1"]), [3, 3, 7, 9]);
    assert_eq!(found(&["* search 5"]), [5]);
    assert_eq!(found(&["* SEARCH"]), [0u32; 0]);
    assert_eq!(found(&[]), [0u32; 0]);
    let strip = |s: &str| -> String { strip_all(&chars(s), "* SEARCH").iter().collect() };
    assert_eq!(strip("* SEARCH* SEARCH 1"), " 1");
}

#[test]
fn literals_are_announced_in_braces() {
    assert_eq!(parse_literal_len(&chars("* 1 FETCH (RFC822 {1234}")), Some(1234));
    assert_eq!(parse_literal_len(&chars("{1} {2}")), Some(2));
    assert_eq!(parse_literal_len(&chars("{1} {x}")), None);
    assert_eq!(parse_literal_len(&chars("{12")), None);
    assert_eq!(parse_literal_len(&chars("{3} x")), None);
    assert_eq!(parse_literal_len(&chars("{3}}")), None);
    assert_eq!(parse_literal_len(&chars("{3} \t")), Some(3));
    assert_eq!(parse_literal_len(&chars("none")), None);
}

#[test]
fn a_message_is_fetched_whatever_the_pieces() {
    let reply = "* 1 FETCH (UID 7 RFC822 {11}\r\nA1 OK\r\n\r\nxy)\r\nA1 OK FETCH\r\n";
    for size in 1..reply.len() + 1 {
        let mut c = ImapClient::new();
        let (_, mut fetch) = c.uid_fetch_rfc822(7);
        let mut done = None;
        for piece in reply.as_bytes().chunks(size) {
            c.feed(piece);
            done = c.receive_fetch(&mut fetch);
            if done.is_some() {
                break;
            }
        }
        assert!(matches!(done, Some(Ok(()))));
        assert_eq!(fetch.body.as_deref(), Some(&b"A1 OK\r\n\r\nxy"[..]));
        assert!(c.buf.is_empty());
    }
}

#[test]
fn a_message_that_is_gone_or_refused() {
    let mut c = ImapClient::new();
    let (_, mut fetch) = c.uid_fetch_rfc822(7);
    c.feed(b"* nothing\r\nA1 OK\r\n");
    assert!(matches!(c.receive_fetch(&mut fetch), Some(Ok(()))));
    assert!(fetch.body.is_none());
    let (_, mut fetch) = c.uid_fetch_rfc822(7);
    c.feed(b"A2 NO gone \r\n");
    match c.receive_fetch(&mut fetch) {
        Some(r) => assert_eq!(error_text(r), "协议: FETCH 失败: A2 NO gone"),
        None => panic!("the reply is complete"),
    }
}

#[test]
fn dates_are_found_in_replies() {
    let line = "* 1 fetch (UID 12 InternalDate \"17-Jul-2024 12:34:56 +0800\")";
    assert_eq!(
        extract_internaldate(&chars(line)).as_deref(),
        Some("17-Jul-2024 12:34:56 +0800")
    );
    assert_eq!(extract_internaldate(&chars("* INTERNALDATE none")), None);
    assert_eq!(extract_internaldate(&chars("* nothing \"x\"")), None);
    assert_eq!(extract_internaldate(&chars("INTERNALDATE\"")), None);
    for line in ["é InternalDate \"d\"", "ŉŉ internaldate\"d\" \"e\"", "\"x\" INTERNALDATE \"d\""] {
        assert_eq!(extract_internaldate(&chars(line)).as_deref(), Some("d"));
    }
    let lines = |v: &[&str]| -> Vec<String> { v.iter().map(|s| s.to_string()).collect() };
    assert_eq!(ImapClient::found_date(true, &lines(&["* x", line])).as_deref(), Some("17-Jul-2024 12:34:56 +0800"));
    assert_eq!(ImapClient::found_date(false, &lines(&[line])), None);
}

fn idle_from(c: &mut ImapClient) -> Idle {
    let (_, idle) = c.idle();
    idle
}

#[test]
fn a_push_ends_the_wait() {
    let mut c = ImapClient::new();
    let mut idle = idle_from(&mut c);
    assert!(matches!(c.receive_idle(&mut idle), IdleStep::Read));
    c.feed(b"* 3 EXISTS\r\n+ idling\r\n* 4 exists\r\n");
    assert!(matches!(c.receive_idle(&mut idle), IdleStep::Listen));
    assert!(matches!(idle.phase, IdlePhase::Waiting));
    assert!(matches!(c.receive_idle(&mut idle), IdleStep::SendDone));
    assert!(matches!(c.receive_idle(&mut idle), IdleStep::Read));
    c.feed(b"* 5 EXPUNGE\r\nA1 OK\r\n");
    assert!(matches!(c.receive_idle(&mut idle), IdleStep::Finish(IdleResult::Exists)));
}

#[test]
fn a_wait_ends_when_the_time_is_up() {
    let mut c = ImapClient::new();
    let mut idle = idle_from(&mut c);
    assert!(!idle.timed_out());
    assert!(!idle.ends_politely());
    c.feed(b"+\r\n* OK still here\r\n");
    assert!(matches!(c.receive_idle(&mut idle), IdleStep::Listen));
    assert!(idle.ends_politely());
    assert!(matches!(c.receive_idle(&mut idle), IdleStep::Read));
    assert!(idle.timed_out());
    assert!(!idle.timed_out());
    c.feed(b"A1 OK\r\n");
    assert!(matches!(c.receive_idle(&mut idle), IdleStep::Finish(IdleResult::Timeout)));
}

#[test]
fn a_server_that_does_not_push_ends_the_wait_at_once() {
    let mut c = ImapClient::new();
    let mut idle = idle_from(&mut c);
    c.feed(b"A1 BAD what\r\n");
    assert!(matches!(c.receive_idle(&mut idle), IdleStep::Finish(IdleResult::Timeout)));
}

#[test]
fn a_server_may_end_the_wait_itself() {
    let mut c = ImapClient::new();
    let mut idle = idle_from(&mut c);
    c.feed(b"+ ok\r\nA1 OK early\r\nA1 OK again\r\n");
    assert!(matches!(c.receive_idle(&mut idle), IdleStep::Listen));
    assert!(matches!(c.receive_idle(&mut idle), IdleStep::SendDone));
    assert!(matches!(c.receive_idle(&mut idle), IdleStep::Finish(IdleResult::Timeout)));
}
