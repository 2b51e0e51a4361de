use std::collections::VecDeque;

use sms_notifier::args::{Args, Exit};
use sms_notifier::http::{
    answer, parse_request_line, percent_bytes, query_param, read_header, route_http,
    write_http_response, Answer, Site,
};
use sms_notifier::logs::{
    log_timestamp, push_form, render_logs_html_with_port, render_logs_json, stamp,
    ws_port, ClockTime, Level, LogCenter,
};
use sms_notifier::push::{
    sends_more, welcome, Beat, GreetStep, Greeting, Heard, Outcome, PushStep, Pusher,
};
use sms_notifier::sms::SmsMessage;

fn site(is_local: bool) -> Site {
    Site {
        is_local,
        ws_port: 18081,
        lines: vec!["a\"b".to_string(), "c".to_string()],
        page: "<html><head><title>t</title></head></html>".to_string(),
    }
}

fn get(path: &str, query: &str, is_local: bool) -> Answer {
    route_http("GET", path, query, &site(is_local))
}

// ───────────────────────── requests ─────────────────────────

#[test]
fn request_lines_are_taken_apart() {
    let parts = |s: &str| {
        let r = parse_request_line(s);
        (r.method, r.path, r.query)
    };
    let t = |a: &str, b: &str, c: &str| (a.to_string(), b.to_string(), c.to_string());
    assert_eq!(parts("GET /?code=1?2 HTTP/1.1\r\n"), t("GET", "/", "code=1?2"));
    assert_eq!(parts("POST /logs HTTP/1.1"), t("POST", "/logs", ""));
    assert_eq!(parts("GET"), t("GET", "/", ""));
    assert_eq!(parts("\r\n"), t("", "/", ""));
}

#[test]
fn headers_say_how_long_the_body_is() {
    assert_eq!(read_header("Content-Length:  12 \r\n", 0), Some(12));
    assert_eq!(read_header("CONTENT-LENGTH: x\r\n", 5), Some(0));
    assert_eq!(read_header("Host: a\r\n", 5), Some(5));
    assert_eq!(read_header("\r\n", 5), None);
    assert_eq!(read_header("content-length: 99999999999999999999999", 5), Some(0));
}

#[test]
fn parameters_are_decoded_and_the_last_one_counts() {
    assert_eq!(query_param("code=1&x=2&code=3", "code").as_deref(), Some("3"));
    assert_eq!(query_param("code=a%20b+c%2B", "code").as_deref(), Some("a b c+"));
    assert_eq!(query_param("sms=%E4%B8%AD", "sms").as_deref(), Some("中"));
    assert_eq!(query_param("sms=中", "sms").as_deref(), Some("中"));
    assert_eq!(query_param("sms=%FF", "sms").as_deref(), Some("\u{fffd}"));
    assert_eq!(query_param("code=%zz%4", "code").as_deref(), Some("%zz%4"));
    assert_eq!(query_param("code", "code"), None);
    assert_eq!(query_param("codes=1", "code"), None);
    assert_eq!(query_param("", "code"), None);
    assert_eq!(query_param("code==1", "code").as_deref(), Some("=1"));
}

#[test]
fn any_bytes_can_be_sent() {
    let all: Vec<u8> = (0..=255).collect();
    let written: String = all.iter().map(|b| format!("%{b:02X}")).collect();
    assert_eq!(percent_bytes(written.as_bytes()), all);
    let small: String = all.iter().map(|b| format!("%{b:02x}")).collect();
    assert_eq!(percent_bytes(small.as_bytes()), all);
}

// ───────────────────────── answers ─────────────────────────

#[test]
fn a_code_is_sent_on() {
    let a = get("/", "code=1234", false);
    assert_eq!((a.status, a.body.as_str()), (200, "Code received\n"));
    assert_eq!(a.content_type, "text/plain; charset=utf-8");
    assert!(matches!(a.message, Some(SmsMessage::Code(c)) if c == "1234"));
    let p = route_http("POST", "/", "sms=x&code=12", &site(true));
    assert!(matches!(p.message, Some(SmsMessage::Code(c)) if c == "12"));
}

#[test]
fn a_short_message_is_sent_on() {
    let a = get("/", "sms=%E3%80%90G%E3%80%91+8888", false);
    assert_eq!((a.status, a.body.as_str()), (200, "SMS received\n"));
    assert!(matches!(a.message, Some(SmsMessage::Sms(s)) if s == "【G】 8888"));
}

#[test]
fn a_blank_code_is_refused() {
    for q in ["code=", "code=+%20", "sms=x&code=%E3%80%80"] {
        let a = get("/", q, true);
        assert_eq!((a.status, a.body.as_str()), (400, "Empty code\n"), "{q}");
        assert!(a.message.is_none());
    }
}

#[test]
fn the_log_is_for_this_machine() {
    for path in ["/logs", "/logs/", "/logs/raw"] {
        let a = get(path, "code=1234", false);
        assert_eq!((a.status, a.body.as_str()), (403, "Forbidden\n"), "{path}");
        assert!(a.message.is_none());
    }
    let raw = get("/logs/raw", "", true);
    assert_eq!(raw.content_type, "application/json; charset=utf-8");
    assert_eq!(raw.body, "{\"count\":2,\"lines\":[\"a\\\"b\",\"c\"]}");
    let html = get("/logs", "", true);
    assert_eq!(html.status, 200);
    assert_eq!(html.content_type, "text/html; charset=utf-8");
    assert_eq!(
        html.body,
        "<html><head>\n    <script>window.__WS_PORT__ = 18081;</script>\n<title>t</title></head></html>"
    );
}

#[test]
fn other_requests() {
    let a = route_http("PUT", "/logs", "", &site(false));
    assert_eq!((a.status, a.body.as_str()), (405, "Method not allowed\n"));
    let a = get("/favicon.ico", "code=1", true);
    assert_eq!((a.status, a.body.as_str()), (404, "Not found\n"));
    assert!(a.message.is_none());
    let a = get("/", "", false);
    assert_eq!(
        a.body,
        "SMS Notifier endpoints:\n- GET/POST /?code=<verification>\n- GET/POST /?sms=<raw sms text>\n- GET /logs          (HTML log viewer)\n"
    );
    assert!(a.message.is_none());
    let a = answer("GET", "/", None, Some(String::new()), &site(true));
    assert!(matches!(a.message, Some(SmsMessage::Sms(s)) if s.is_empty()));
}

#[test]
fn responses_give_their_length_in_bytes() {
    assert_eq!(
        write_http_response(403, "text/plain", "中\n"),
        "HTTP/1.1 403 Forbidden\r\nContent-Type: text/plain\r\nContent-Length: 4\r\nConnection: close\r\n\r\n中\n"
    );
    for (status, reason) in [
        (200, "OK"),
        (400, "Bad Request"),
        (404, "Not Found"),
        (405, "Method Not Allowed"),
        (500, "OK"),
    ] {
        let head = format!("HTTP/1.1 {status} {reason}\r\n");
        assert!(write_http_response(status, "x", "").starts_with(&head));
    }
}

// ───────────────────────── the log ─────────────────────────

#[test]
fn events_are_stamped() {
    let t = ClockTime { month: 7, day: 4, hour: 23, minute: 0, second: 59 };
    assert_eq!(log_timestamp(Some(t)), "07/04 23:00:59");
    assert_eq!(log_timestamp(None), "1970-01-01 00:00:00");
    assert_eq!(stamp("T", Level::Warn, "a\nb\n\n"), "T WARN a\nb");
    assert_eq!(stamp("T", Level::Info, ""), "T INFO ");
    assert_eq!(stamp("", Level::Error, "\n"), " ERROR ");
    assert_eq!(stamp("T", Level::Debug, "x"), "T DEBUG x");
    assert_eq!(stamp("T", Level::Trace, "x"), "T TRACE x");
}

#[test]
fn the_last_five_hundred_lines_are_kept() {
    let mut c = LogCenter::new();
    c.set_log_buffer(VecDeque::new());
    for i in 0..1234 {
        assert_eq!(c.store_log_line(&format!("{i}")), None);
        assert!(c.snapshot_logs().len() <= 500);
    }
    let expected: Vec<String> = (734..1234).map(|i| format!("{i}")).collect();
    assert_eq!(c.snapshot_logs(), expected);
}

#[test]
fn a_stored_line_is_pushed_to_those_who_follow() {
    let mut c = LogCenter::new();
    c.set_log_buffer(VecDeque::new());
    assert_eq!(c.store_log_line("a\nb"), None);
    c.register_subscriber();
    assert_eq!(c.store_log_line("c\nd").as_deref(), Some("c<br>d"));
    assert_eq!(c.snapshot_logs(), ["a\nb", "c\nd"]);
}

#[test]
fn only_the_first_log_counts() {
    let mut c = LogCenter::new();
    assert_eq!(c.store_log_line("lost"), None);
    assert!(c.snapshot_logs().is_empty());
    c.set_log_buffer(VecDeque::from(["a".to_string()]));
    c.set_log_buffer(VecDeque::new());
    c.store_log_line("b");
    assert_eq!(c.snapshot_logs(), ["a", "b"]);
}

#[test]
fn followers_come_and_go() {
    let mut c = LogCenter::new();
    assert_eq!(c.broadcast_log_line("x\ny"), None);
    let ids: Vec<u64> = (0..4).map(|_| c.register_subscriber()).collect();
    assert_eq!(c.broadcast_log_line("x\ny").as_deref(), Some("x<br>y"));
    c.drop_unreached(&[ids[0], ids[2]]);
    let mut left = c.subscribers.clone();
    left.sort();
    assert_eq!(left, [ids[1], ids[3]]);
    c.unregister_subscriber(ids[0]);
    c.unregister_subscriber(ids[1]);
    assert_eq!(c.subscribers, [ids[3]]);
    let new = c.register_subscriber();
    assert!(!ids.contains(&new));
}

#[test]
fn json_is_escaped() {
    let json = render_logs_json(&["\"\\\n\r\t\u{1}\u{1f}\u{7f}中".to_string()]);
    assert_eq!(
        json,
        "{\"count\":1,\"lines\":[\"\\\"\\\\\\n\\r\\t\\u0001\\u001f\u{7f}中\"]}"
    );
    assert_eq!(render_logs_json(&[]), "{\"count\":0,\"lines\":[]}");
}

#[test]
fn a_page_without_a_head_gets_the_script_first() {
    assert_eq!(
        render_logs_html_with_port("x", 0),
        "<script>window.__WS_PORT__ = 0;</script>\n\nx"
    );
    assert_eq!(ws_port(18080), 18081);
    assert_eq!(ws_port(u16::MAX), 0);
}

// ───────────────────────── pushing the log ─────────────────────────

#[test]
fn newcomers_get_what_the_log_holds() {
    let mut c = LogCenter::new();
    c.set_log_buffer(VecDeque::new());
    c.store_log_line("a\nb");
    c.store_log_line("c");
    assert_eq!(welcome(&c, true), Some(vec!["a<br>b".to_string(), "c".to_string()]));
    assert_eq!(welcome(&c, false), None);
    assert_eq!(push_form("\n"), "<br>");
}

#[test]
fn newcomers_follow_once_they_have_every_line() {
    let lines = || vec!["a".to_string(), "b".to_string()];
    let mut g = Greeting::new(lines());
    assert!(matches!(g.step(Outcome::Sent), GreetStep::Send(s) if s == "a"));
    assert!(matches!(g.step(Outcome::Sent), GreetStep::Send(s) if s == "b"));
    assert!(matches!(g.step(Outcome::Sent), GreetStep::Register));
    let mut lost = Greeting::new(lines());
    assert!(matches!(lost.step(Outcome::Sent), GreetStep::Send(s) if s == "a"));
    assert!(matches!(lost.step(Outcome::Failed), GreetStep::Close));
    assert!(matches!(Greeting::new(Vec::new()).step(Outcome::Sent), GreetStep::Register));
}

#[test]
fn lines_are_sent_in_batches() {
    let mut sent = 0;
    while sends_more(sent) {
        sent += 1;
    }
    assert_eq!(sent, 65);
}

#[test]
fn a_silent_peer_is_asked_once_and_dropped() {
    let mut p = Pusher::new(1000);
    assert!(matches!(p.beat(15_999), Beat::Nothing));
    assert!(matches!(p.beat(16_000), Beat::Ping));
    assert!(matches!(p.hear(Heard::Silence), PushStep::GoOn));
    assert!(matches!(p.beat(30_999), Beat::Nothing));
    assert!(matches!(p.beat(31_000), Beat::Dead));
}

#[test]
fn a_peer_that_answers_is_kept() {
    let mut p = Pusher::new(0);
    for i in 1..10 {
        assert!(matches!(p.beat(i * 15_000), Beat::Ping));
        assert!(matches!(p.hear(Heard::Pong), PushStep::GoOn));
    }
    assert!(matches!(p.beat(0), Beat::Nothing));
}

#[test]
fn peers_are_answered() {
    let mut p = Pusher::new(0);
    assert!(matches!(p.hear(Heard::Data), PushStep::SendText("ok")));
    assert!(matches!(p.hear(Heard::Ping(vec![1, 2])), PushStep::SendPong(v) if v == [1, 2]));
    assert!(matches!(p.hear(Heard::Close), PushStep::Close));
    assert!(matches!(p.hear(Heard::Failure), PushStep::Stop));
}

// ───────────────────────── the command line ─────────────────────────

fn parse_args(args: &[&str]) -> Result<(u16, Option<String>), (String, i32)> {
    let v: Vec<String> = args.iter().map(|s| s.to_string()).collect();
    match Args::parse(&v) {
        Ok(a) => Ok((a.port, a.config_path)),
        Err(e) => Err(e.report()),
    }
}

#[test]
fn arguments_are_read() {
    assert_eq!(parse_args(&[]), Ok((18080, None)));
    assert_eq!(parse_args(&["-p", "9090"]), Ok((9090, None)));
    assert_eq!(parse_args(&["--port=1", "--port", "2"]), Ok((2, None)));
    assert_eq!(
        parse_args(&["-c", "a", "--config=b c", "--port=+3"]),
        Ok((3, Some("b c".to_string())))
    );
    assert_eq!(parse_args(&["--config="]), Ok((18080, Some(String::new()))));
    assert_eq!(parse_args(&["--config", "x"]), parse_args(&["--config=x"]));
    assert_eq!(parse_args(&["--port", "77"]), parse_args(&["--port=77"]));
}

#[test]
fn wrong_arguments_are_named() {
    let usage = "Usage: sms-notifier [--port <PORT>] [--config <PATH>]\n";
    let wrong = |s: &str| Err((format!("{s}\n{usage}"), 2));
    assert_eq!(parse_args(&["--port"]), wrong("Missing value for --port"));
    assert_eq!(parse_args(&["-c"]), wrong("Missing value for --config"));
    assert_eq!(parse_args(&["-p", "65536"]), wrong("Invalid port: 65536"));
    assert_eq!(parse_args(&["--port="]), wrong("Invalid port: "));
    assert_eq!(parse_args(&["--ports"]), wrong("Unknown argument: --ports"));
    assert_eq!(parse_args(&["x", "-h"]), wrong("Unknown argument: x"));
    assert_eq!(
        parse_args(&["-p", "1", "--help"]),
        Err((format!("SMS Notifier\n\n{usage}"), 0))
    );
    assert!(matches!(Args::parse(&["-h".to_string()]), Err(Exit::Help)));
}
