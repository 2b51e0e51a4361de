use std::collections::HashSet;

use sms_notifier::mail::config::Account;
use sms_notifier::mail::dates::{
    civil_to_unix, parse_internaldate_age_secs, parse_internaldate_unix, parse_tz_offset,
};
use sms_notifier::mail::listener::{
    backoff, is_stale, latest, new_uids, notify_message, seen_after, Reconnect, Watch,
};
use sms_notifier::mail::message::ParsedMessage;
use sms_notifier::sms::SmsMessage;

fn account(poll_interval: u64, last_ok_interval: Option<u64>) -> Account {
    Account {
        email: "a@x".to_string(),
        label: None,
        server: "s".to_string(),
        port: 993,
        password: "p".to_string(),
        poll_interval,
        last_ok_interval,
    }
}

fn chars(s: &str) -> Vec<char> {
    s.chars().collect()
}

// ───────────────────────── connecting again ─────────────────────────

#[test]
fn the_interval_grows_by_half_up_to_the_limit() {
    assert_eq!(backoff(30), 45);
    assert_eq!(backoff(45), 67);
    assert_eq!(backoff(199), 298);
    assert_eq!(backoff(200), 300);
    assert_eq!(backoff(600), 300);
    assert_eq!(backoff(0), 0);
    assert_eq!(backoff(u64::MAX), 300);
    for n in 0..1000u64 {
        assert_eq!(backoff(n), std::cmp::min(300, (n as f64 * 1.5) as u64));
    }
}

#[test]
fn the_interval_starts_where_it_last_worked() {
    let r = Reconnect::new(&account(10, None));
    assert_eq!((r.base, r.interval, r.fail_count), (30, 30, 0));
    assert_eq!(Reconnect::new(&account(60, Some(45))).interval, 60);
    assert_eq!(Reconnect::new(&account(60, Some(90))).interval, 90);
}

#[test]
fn before_the_first_session_three_quick_attempts_come_first() {
    let mut r = Reconnect::new(&account(30, Some(200)));
    let waits: Vec<u64> = (0..10).map(|_| r.failed()).collect();
    assert_eq!(waits, [1, 2, 5, 45, 67, 100, 150, 225, 300, 300]);
    assert_eq!(
        r.retry_note("a", 300),
        "[a] poll interval adjusted to 300s on error; reconnecting in 300s"
    );
    let mut new = Reconnect::new(&account(30, None));
    new.failed();
    let pause = new.failed();
    assert_eq!(new.retry_note("a b", pause), "[a b] fast retry #2 in 2s");
}

#[test]
fn a_server_that_pushes_is_tried_again_soon() {
    let mut r = Reconnect::new(&account(30, None));
    assert!(!r.connected());
    r.session_started(true);
    for _ in 0..10 {
        assert_eq!(r.failed(), 5);
        assert_eq!(r.interval, 30);
    }
    assert!(matches!(r.watch(), Watch::Push(30)));
    assert_eq!(r.retry_note("a", 5), "[a] IDLE connection lost; reconnecting in 5s");
}

#[test]
fn a_server_that_is_asked_backs_off_until_it_answers() {
    let mut r = Reconnect::new(&account(40, None));
    r.connected();
    r.session_started(false);
    assert_eq!([r.failed(), r.failed(), r.failed()], [60, 90, 135]);
    assert_eq!(
        r.retry_note("a", 135),
        "[a] reconnect interval set to 135s; reconnecting in 135s"
    );
    assert!(matches!(r.watch(), Watch::Poll(135)));
    assert!(r.connected());
    assert_eq!((r.interval, r.fail_count), (40, 0));
    assert!(!r.connected());
}

// ───────────────────────── new messages ─────────────────────────

#[test]
fn each_message_is_new_once() {
    let seen = seen_after(&[1, 2, 3]);
    assert_eq!(seen, HashSet::from([1, 2, 3]));
    assert_eq!(new_uids(&[2, 9, 3, 5], &seen), [5, 9]);
    let seen = seen_after(&[2, 9, 3, 5]);
    assert_eq!(new_uids(&[2, 9, 3, 5], &seen), [0u32; 0]);
    assert_eq!(new_uids(&[1, 2], &seen), [1]);
    assert_eq!(new_uids(&[], &seen), [0u32; 0]);
}

#[test]
fn the_latest_message_is_the_last_one() {
    assert_eq!(latest(&[]), None);
    assert_eq!(latest(&[3, 8]), Some(8));
}

#[test]
fn old_messages_are_left_alone() {
    let date = "01-Jan-1970 00:10:00 +0000";
    assert!(!is_stale(Some(date), 900));
    assert!(is_stale(Some(date), 901));
    assert!(!is_stale(Some(date), 0));
    assert!(!is_stale(Some("no date"), 10_000));
    assert!(!is_stale(None, 10_000));
}

// ───────────────────────── dates ─────────────────────────

#[test]
fn dates_are_read() {
    assert_eq!(parse_internaldate_unix("17-Jul-2024 12:34:56 +0800"), Some(1721190896));
    assert_eq!(parse_internaldate_unix(" 1-Jan-1970 00:00:00 +0000 "), Some(0));
    assert_eq!(parse_internaldate_unix("31-Dec-1969 19:00:00 -0500"), Some(0));
    assert_eq!(parse_internaldate_unix("29-Feb-2000 00:00:00 +0000"), Some(951782400));
    assert_eq!(parse_internaldate_age_secs("01-Jan-1970 00:00:10 +0000", 25), Some(15));
    assert_eq!(parse_internaldate_age_secs("01-Jan-1970 00:00:10 +0000", 5), Some(-5));
}

#[test]
fn what_is_no_date_is_not_read() {
    for s in [
        "",
        "17-Jul-2024",
        "17-Jul-2024 12:34:56",
        "17-jul-2024 12:34:56 +0800",
        "x-Jul-2024 12:34:56 +0800",
        "17-Jul-x 12:34:56 +0800",
        "17-Jul-2024 12:34 +0800",
        "17-Jul-2024 12:34:56 0800",
        "17-Jul-2024 12:34:56 +08:00",
        "17-Jul-2024 12:34:56 +é12",
        "17-Jul-2024 12:34:56 +1é2",
    ] {
        assert_eq!(parse_internaldate_unix(s), None, "{s:?}");
    }
    assert_eq!(parse_tz_offset(&chars("+0530")), Some(19800));
    assert_eq!(parse_tz_offset(&chars("-0030")), Some(-1800));
    assert_eq!(parse_tz_offset(&chars("0000")), None);
}

#[test]
fn days_follow_each_other() {
    assert_eq!(civil_to_unix(1970, 1, 1, 0, 0, 0), 0);
    assert_eq!(civil_to_unix(2024, 3, 1, 0, 0, 0) - civil_to_unix(2024, 2, 29, 0, 0, 0), 86400);
    assert_eq!(civil_to_unix(2023, 3, 1, 0, 0, 0) - civil_to_unix(2023, 2, 28, 0, 0, 0), 86400);
    assert_eq!(civil_to_unix(2101, 1, 1, 0, 0, 0) - civil_to_unix(2100, 12, 31, 0, 0, 0), 86400);
    assert_eq!(civil_to_unix(2100, 3, 1, 0, 0, 0) - civil_to_unix(2100, 2, 28, 0, 0, 0), 86400);
    assert_eq!(civil_to_unix(2038, 1, 19, 3, 14, 8), 2147483648);
    assert_eq!(civil_to_unix(-5000, 1, 1, 0, 0, 0), -219_951_849_600);
}

// ───────────────────────── what is said of a message ─────────────────────────

fn message(subject: &str, from: &str, body: &str) -> ParsedMessage {
    ParsedMessage {
        subject: subject.to_string(),
        from: from.to_string(),
        body: body.to_string(),
    }
}

#[test]
fn a_mail_with_a_code_is_pasted_and_not_submitted() {
    let words = vec!["verification".to_string()];
    let m = message("Your Verification", "f@x", "use 123456");
    let (log, notice) = notify_message(&m, &account(30, None), false, &words);
    assert_eq!(
        log,
        "📨 [a@x] 新邮件: [Your Verification | f@x] :\nuse 123456\n🔑 验证码已复制: 123456"
    );
    match notice {
        Some(SmsMessage::Notify { title, body, auto_paste, submit }) => {
            assert_eq!(title, "📧 新邮件 (a@x)｜Your Verification");
            assert_eq!(body, "123456");
            assert!(auto_paste);
            assert!(!submit);
        }
        _ => panic!("expected a notification"),
    }
}

#[test]
fn a_mail_without_a_keyword_is_shown_only_where_wanted() {
    let words = vec!["验证码".to_string()];
    let m = message("hello", "f@x", "123456");
    let mut a = account(30, None);
    a.label = Some("L".to_string());
    let (log, notice) = notify_message(&m, &a, true, &words);
    assert_eq!(log, "📨 [L] 新邮件: [hello | f@x] :\n123456");
    match notice {
        Some(SmsMessage::Notify { title, body, auto_paste, submit }) => {
            assert_eq!(title, "📧 新邮件 (L)｜hello");
            assert_eq!(body, "f@x");
            assert!(!auto_paste && !submit);
        }
        _ => panic!("expected a notification"),
    }
    assert!(notify_message(&m, &a, false, &words).1.is_none());
}

#[test]
fn a_mail_without_a_subject_gets_one_that_matches() {
    let words = vec!["验证码".to_string()];
    let (log, notice) = notify_message(&message("", "", "9999"), &account(30, None), false, &words);
    assert_eq!(log, "📨 [a@x] 新邮件: [验证码请查收 | ] :\n9999\n🔑 验证码已复制: 9999");
    assert!(notice.is_some());
    let (log, notice) = notify_message(&message("", "", ""), &account(30, None), false, &words);
    assert_eq!(log, "📨 [a@x] 新邮件: [验证码请查收 | ] :");
    assert!(notice.is_none());
}
