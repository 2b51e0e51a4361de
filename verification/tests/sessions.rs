use std::collections::HashSet;

use sms_notifier::mail::config::Account;
use sms_notifier::mail::imap_client::ImapError;
use sms_notifier::mail::listener::{Reconnect, Watch};
use sms_notifier::mail::session::{Event, Phase, Session, Setup, Step, Task};
use sms_notifier::sms::SmsMessage;

fn setup() -> Setup {
    Setup {
        account: Account {
            email: "a@x".to_string(),
            label: None,
            server: "s".to_string(),
            port: 993,
            password: "p".to_string(),
            poll_interval: 30,
            last_ok_interval: Some(60),
        },
        keywords: vec!["code".to_string()],
        notify_unmatched: true,
    }
}

fn reply(ok: bool, lines: &[&str]) -> Event {
    Event::Reply { ok, untagged: lines.iter().map(|s| s.to_string()).collect() }
}

fn failed() -> Event {
    Event::Failed(ImapError::Io("gone".to_string()))
}

struct Run {
    session: Session,
    reconnect: Reconnect,
    setup: Setup,
}

impl Run {
    fn new() -> Run {
        let setup = setup();
        Run { session: Session::new(), reconnect: Reconnect::new(&setup.account), setup }
    }

    fn step(&mut self, event: Event) -> Step {
        assert!(self.session.expects(&event));
        self.session.step(&mut self.reconnect, &self.setup, event, 1000)
    }

    fn task(&mut self, event: Event) -> Task {
        match self.step(event).next {
            Ok(task) => task,
            Err(e) => panic!("{}", e.describe()),
        }
    }

    /// A session that has listed `lines`.
    fn listed(capabilities: &str, lines: &str) -> (Run, Task) {
        let mut run = Run::new();
        run.task(Event::Greeting(b"* OK".to_vec()));
        run.task(reply(true, &[]));
        run.task(reply(true, &[capabilities]));
        run.task(reply(true, &[]));
        run.task(reply(true, &[]));
        let task = run.task(reply(true, &[lines]));
        (run, task)
    }
}

#[test]
fn a_session_from_the_greeting_to_the_first_wait() {
    let mut run = Run::new();
    assert!(matches!(run.task(Event::Greeting(b"* OK hi".to_vec())), Task::Login));
    assert!(matches!(run.task(reply(true, &[])), Task::Capability));
    assert!(matches!(run.task(reply(true, &["* CAPABILITY IDLE"])), Task::SendId));
    assert!(matches!(run.task(reply(false, &[])), Task::Select));
    assert_eq!(run.reconnect.interval, 60);
    let step = run.step(reply(true, &[]));
    assert!(matches!(step.next, Ok(Task::Search)));
    assert_eq!(step.save, Some(30));
    assert_eq!(run.reconnect.interval, 30);
    assert!(matches!(run.task(reply(true, &["* SEARCH 5 3"])), Task::FetchDate(5)));
    assert_eq!(run.session.seen, HashSet::from([3, 5]));
    assert_eq!(run.reconnect.supports_idle, Some(true));
    let date = "* 1 FETCH (INTERNALDATE \"01-Jan-1970 00:15:00 +0000\")";
    assert!(matches!(run.task(reply(true, &[date])), Task::Fetch(5)));
    let step = run.step(Event::Message(Some(b"Subject: code\n\n1234\n".to_vec())));
    assert!(matches!(step.next, Ok(Task::Wait(Watch::Push(30)))));
    match step.notice {
        Some((_, Some(SmsMessage::Notify { body, auto_paste, submit, .. }))) => {
            assert_eq!(body, "1234");
            assert!(auto_paste && !submit);
        }
        _ => panic!("expected a notification"),
    }
}

#[test]
fn the_last_message_is_left_alone_where_it_is_old() {
    let (mut run, task) = Run::listed("* CAPABILITY X", "* SEARCH 7");
    assert!(matches!(task, Task::FetchDate(7)));
    let old = "* 1 FETCH (INTERNALDATE \"01-Jan-1970 00:00:00 +0000\")";
    assert!(matches!(run.task(reply(true, &[old])), Task::Wait(Watch::Poll(30))));
    let (mut run, _) = Run::listed("", "* SEARCH 7");
    assert!(matches!(run.task(failed()), Task::Fetch(7)));
    let step = run.step(Event::Message(Some(b"Subject: x\n\n1234\n".to_vec())));
    let (log, message) = step.notice.unwrap();
    assert_eq!(log, "📨 [a@x] 新邮件: [x | ] :\n1234");
    assert!(message.is_none());
    let (_, task) = Run::listed("", "* SEARCH");
    assert!(matches!(task, Task::Wait(_)));
}

#[test]
fn new_messages_are_fetched_one_by_one() {
    let (mut run, _) = Run::listed("", "* SEARCH 1");
    run.task(failed());
    assert!(matches!(run.task(Event::Message(None)), Task::Wait(_)));
    assert!(matches!(run.task(Event::Waited), Task::Search));
    assert!(matches!(run.task(reply(true, &["* SEARCH 9 4 1 6"])), Task::Fetch(4)));
    let step = run.step(Event::Message(Some(b"From: f\nSubject: s\n\nhi\n".to_vec())));
    assert!(matches!(step.next, Ok(Task::Fetch(6))));
    match step.notice {
        Some((_, Some(SmsMessage::Notify { title, body, auto_paste, .. }))) => {
            assert_eq!(title, "📧 新邮件 (a@x)｜s");
            assert_eq!(body, "f");
            assert!(!auto_paste);
        }
        _ => panic!("expected a notification"),
    }
    assert!(matches!(run.task(failed()), Task::Fetch(9)));
    assert_eq!(run.session.seen, HashSet::from([1]));
    assert!(matches!(run.task(Event::Message(None)), Task::Wait(Watch::Poll(30))));
    assert_eq!(run.session.seen, HashSet::from([1, 4, 6, 9]));
    run.task(Event::Waited);
    assert!(matches!(run.task(reply(true, &["* SEARCH 9 6"])), Task::Wait(_)));
    assert_eq!(run.session.seen, HashSet::from([6, 9]));
}

#[test]
fn what_ends_a_session() {
    let end = |events: Vec<Event>| {
        let mut run = Run::new();
        let mut last = None;
        for e in events {
            last = Some(run.step(e).next);
        }
        match last {
            Some(Err(e)) => e.describe(),
            _ => panic!("the session goes on"),
        }
    };
    let hello = || Event::Greeting(b"* OK".to_vec());
    let ok = || reply(true, &[]);
    assert_eq!(end(vec![Event::Greeting(b"* NO".to_vec())]), "协议: 非预期问候: * NO");
    assert_eq!(
        end(vec![hello(), reply(false, &[])]),
        "登录: 登录失败：请确认 config.yaml 中的 password 已替换为真实 IMAP 授权码"
    );
    assert_eq!(
        end(vec![hello(), ok(), ok(), ok(), reply(false, &[])]),
        "协议: select INBOX 失败"
    );
    assert_eq!(
        end(vec![hello(), ok(), ok(), failed(), ok(), reply(false, &[])]),
        "协议: UID SEARCH 失败"
    );
    assert_eq!(end(vec![failed()]), "IO: gone");
    assert_eq!(end(vec![hello(), failed()]), "IO: gone");
    assert_eq!(end(vec![hello(), ok(), ok(), ok(), ok(), ok(), failed()]), "IO: gone");
}

#[test]
fn what_a_session_expects() {
    let s = Session::new();
    assert!(matches!(s.phase, Phase::Greeting));
    assert!(s.expects(&failed()));
    assert!(s.expects(&Event::Greeting(Vec::new())));
    assert!(!s.expects(&Event::Waited));
    assert!(!s.expects(&reply(true, &[])));
    assert!(!s.expects(&Event::Message(None)));
}
