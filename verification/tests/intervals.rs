use sms_notifier::mail::config::{parse_accounts, SAMPLE_YAML};
use sms_notifier::mail::interval::save_account_interval;

const NOTE: &str = "   # 由程序维护：上次正常运行的间隔";

#[test]
fn an_interval_is_added_at_the_end_of_the_block() {
    let text = "accounts:\n  - email: a@x\n    server: s\n    password: p\n  - email: b@x\n    server: s\n";
    let expected = format!(
        "accounts:\n  - email: a@x\n    server: s\n    password: p\n    last_ok_interval: 45{NOTE}\n  - email: b@x\n    server: s\n"
    );
    assert_eq!(save_account_interval(text, "a@x", 45), Some(expected));
}

#[test]
fn an_interval_is_replaced_where_it_stands() {
    let text = "accounts:\n  - email: a@x\n    last_ok_interval: 7 # x\n    server: s\n";
    let expected =
        format!("accounts:\n  - email: a@x\n    last_ok_interval: 300{NOTE}\n    server: s\n");
    assert_eq!(save_account_interval(text, "a@x", 300), Some(expected));
}

#[test]
fn an_interval_is_added_at_the_end_of_the_file() {
    assert_eq!(
        save_account_interval("- email: a", "a", 1),
        Some(format!("- email: a\n  last_ok_interval: 1{NOTE}"))
    );
    assert_eq!(
        save_account_interval("- email: a\n", "a", 1),
        Some(format!("- email: a\n\n  last_ok_interval: 1{NOTE}"))
    );
}

#[test]
fn an_account_is_found_by_its_whole_address() {
    let text = "accounts:\n  - email: xa@q.com\n    server: s\n    password: p\n  - email: a@q.com\n    server: s\n    password: p";
    let saved = save_account_interval(text, "a@q.com", 45).unwrap();
    assert_eq!(saved, format!("{text}\n    last_ok_interval: 45{NOTE}"));
    let after = parse_accounts(&saved);
    assert_eq!(after[0].last_ok_interval, None);
    assert_eq!(after[1].last_ok_interval, Some(45));
    assert_eq!(save_account_interval(text, "q.com", 45), None);
    assert_eq!(save_account_interval("  - label: email: a # a", "a", 1), None);
    assert_eq!(
        save_account_interval("  - email : \"a b\" # c", "a b", 1),
        Some(format!("  - email : \"a b\" # c\n    last_ok_interval: 1{NOTE}"))
    );
}

#[test]
fn an_unknown_account_changes_nothing() {
    assert_eq!(save_account_interval(SAMPLE_YAML, "nobody@x", 1), None);
    assert_eq!(save_account_interval("", "a", 1), None);
    assert_eq!(save_account_interval("email: a\n# - email: a\n", "a", 1), None);
}

#[test]
fn an_interval_below_a_comment_is_replaced() {
    let text = "accounts:\n  - email: a\n    server: s\n# c\n\n  # d\n    last_ok_interval: 7\n    password: p\n  - email: b\n    last_ok_interval: 8\n";
    let saved = save_account_interval(text, "a", 9).unwrap();
    assert_eq!(saved, text.replace("last_ok_interval: 7", &format!("last_ok_interval: 9{NOTE}")));
    assert_eq!(parse_accounts(&saved)[0].last_ok_interval, Some(9));
}

#[test]
fn a_new_interval_comes_before_a_comment_that_is_not_indented() {
    let text = "  - email: a\n    x: y\n  # c\n    z: w\n";
    assert_eq!(
        save_account_interval(text, "a", 9),
        Some(format!("  - email: a\n    x: y\n    last_ok_interval: 9{NOTE}\n  # c\n    z: w\n"))
    );
}

#[test]
fn what_is_saved_is_read_back() {
    let before = parse_accounts(SAMPLE_YAML);
    let saved = save_account_interval(SAMPLE_YAML, "your_126@126.com", 67).unwrap();
    let after = parse_accounts(&saved);
    assert_eq!(after.len(), before.len());
    for (a, b) in before.iter().zip(&after) {
        assert_eq!(a.email, b.email);
        assert_eq!(a.server, b.server);
        assert_eq!(a.password, b.password);
        let expected = if a.email == "your_126@126.com" { Some(67) } else { a.last_ok_interval };
        assert_eq!(b.last_ok_interval, expected);
    }
    let again = save_account_interval(&saved, "your_126@126.com", 30).unwrap();
    assert_eq!(parse_accounts(&again)[1].last_ok_interval, Some(30));
    assert_eq!(again.lines().count(), saved.lines().count());
}

#[test]
fn what_is_saved_is_read_back_with_carriage_returns() {
    let text = SAMPLE_YAML.replace('\n', "\r\n");
    let saved = save_account_interval(&text, "your@gmail.com", 300).unwrap();
    let after = parse_accounts(&saved);
    assert_eq!(after[3].last_ok_interval, Some(300));
    assert_eq!(after[2].last_ok_interval, None);
}

#[test]
fn every_other_line_is_kept() {
    let saved = save_account_interval(SAMPLE_YAML, "your_qq@qq.com", 5).unwrap();
    let new: Vec<&str> = saved.split('\n').collect();
    let old: Vec<&str> = SAMPLE_YAML.split('\n').collect();
    assert_eq!(new.len(), old.len() + 1);
    let at = new.iter().position(|l| l.contains("last_ok_interval: 5")).unwrap();
    let mut rest = new.clone();
    rest.remove(at);
    assert_eq!(rest, old);
}
