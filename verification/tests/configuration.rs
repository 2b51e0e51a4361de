use sms_notifier::mail::config::{
    clean_value, load_config, parse_accounts, parse_bool, parse_config, parse_match_keywords,
    parse_notify_unmatched, Account, ConfigFile, SAMPLE_YAML,
};
use sms_notifier::mail::start::{start, StartPlan};

fn chars(s: &str) -> Vec<char> {
    s.chars().collect()
}

fn value(s: &str) -> String {
    clean_value(&chars(s)).iter().collect()
}

fn emails(accounts: &[Account]) -> Vec<&str> {
    accounts.iter().map(|a| a.email.as_str()).collect()
}

const SAMPLE_WORDS: [&str; 7] = [
    "验证码",
    "校验码",
    "动态码",
    "一次性代码",
    "verification code",
    "verify code",
    "login code",
];

#[test]
fn the_sample_is_a_configuration() {
    let c = parse_config(SAMPLE_YAML);
    assert_eq!(c.match_keywords, SAMPLE_WORDS);
    assert!(c.notify_unmatched);
    assert_eq!(
        emails(&c.accounts),
        ["your_qq@qq.com", "your_126@126.com", "your_sina@sina.com", "your@gmail.com"]
    );
    let qq = &c.accounts[0];
    assert_eq!(qq.label.as_deref(), Some("QQ"));
    assert_eq!(qq.server, "imap.qq.com");
    assert_eq!(qq.port, 993);
    assert_eq!(qq.password, "YOUR_QQ_IMAP_AUTH_CODE");
    assert_eq!(qq.poll_interval, 30);
    assert_eq!(qq.last_ok_interval, None);
    assert_eq!(qq.label_or_email(), "QQ");
}

#[test]
fn values_are_cleaned() {
    assert_eq!(value("  \"a # b\" # c"), "a # b");
    assert_eq!(value(" 'x' y"), "x");
    assert_eq!(value(" a#b # c"), "a#b");
    assert_eq!(value("# only a comment"), "");
    assert_eq!(value("a \"#\" b\t# c"), "a \"#\" b");
    assert_eq!(value("\"open # b"), "\"open # b");
    assert_eq!(value("\"\""), "");
    assert_eq!(value("  "), "");
}

#[test]
fn switches() {
    for s in ["true", " TRUE ", "Yes", "on", "1"] {
        assert!(parse_bool(&chars(s)), "{s}");
    }
    for s in ["false", "", "2", "true # yes", "no"] {
        assert!(!parse_bool(&chars(s)), "{s}");
    }
}

#[test]
fn notify_unmatched_needs_the_top_level_and_a_value() {
    assert_eq!(parse_notify_unmatched("a: b\nnotify_unmatched: no\n"), Some(false));
    assert_eq!(parse_notify_unmatched("notify_unmatched: on\nnotify_unmatched: off"), Some(true));
    assert_eq!(parse_notify_unmatched(" notify_unmatched: no"), None);
    assert_eq!(parse_notify_unmatched("notify_unmatched:  \nnotify_unmatched: no"), None);
    assert_eq!(parse_notify_unmatched(""), None);
    assert!(parse_config("").notify_unmatched);
}

#[test]
fn keyword_lists() {
    let words = |s: &str| parse_match_keywords(s);
    let some = |v: &[&str]| Some(v.iter().map(|s| s.to_string()).collect::<Vec<_>>());
    assert_eq!(words(""), None);
    assert_eq!(words("match_keywords: [] \n  - a\n"), some(&[]));
    assert_eq!(words("match_keywords:\n  - a\n\n# c\n  - \"b c\" # d\naccounts:\n  - x\n"), some(&["a", "b c"]));
    assert_eq!(words("match_keywords:\n  - a\n    - deeper\n  - b\n - c\n  - d\n"), some(&["a", "b"]));
    assert_eq!(words("match_keywords:\n  note: x\n  - a\n    more\n  end\n  - b\n"), some(&["a"]));
    assert_eq!(words("match_keywords: x\n  - \"\"\n  - a\r\n"), some(&["a"]));
    assert_eq!(words("match_keywords:\n- a\n"), some(&[]));
}

#[test]
fn account_lists() {
    let text = "accounts:\n  # c\n  - email: a@x # me\n    server: s\n    password: 'p#q'\n    port: 99999\n    poll_interval: 0\n    last_ok_interval: 45\n    label:\n\n  - email: b@x\n    server: s\n  - email: c@x\n    password: p\n    server: t\n    port: 143\n      - nested: x\n    poll_interval: abc\nother: y\n  - email: d@x\n";
    let a = parse_accounts(text);
    assert_eq!(emails(&a), ["a@x", "c@x"]);
    assert_eq!(a[0].password, "p#q");
    assert_eq!(a[0].port, 993);
    assert_eq!(a[0].poll_interval, 1);
    assert_eq!(a[0].last_ok_interval, Some(45));
    assert_eq!(a[0].label, None);
    assert_eq!(a[0].label_or_email(), "a@x");
    assert_eq!(a[1].port, 143);
    assert_eq!(a[1].poll_interval, 30);
}

#[test]
fn account_lists_end_where_the_indentation_ends() {
    let tail = "    server: s\n    password: p\n";
    assert!(parse_accounts("").is_empty());
    assert!(parse_accounts("accounts:\n").is_empty());
    assert!(parse_accounts(&format!("  accounts:\n  - email: a\n{tail}")).is_empty());
    let two = format!("accounts:\n  - email: a\n{tail}  - email: b\n{tail}");
    assert_eq!(emails(&parse_accounts(&two)), ["a", "b"]);
    let cut = format!("accounts:\n  - email: a\n{tail} - email: b\n{tail}");
    assert_eq!(emails(&parse_accounts(&cut)), ["a"]);
    let field = format!("accounts:\n  - email: a\n{tail}  stray: x\n  - email: b\n{tail}");
    assert_eq!(emails(&parse_accounts(&field)), ["a"]);
    let crlf = two.replace('\n', "\r\n");
    assert_eq!(emails(&parse_accounts(&crlf)), ["a", "b"]);
    let loose = format!("accounts:\n    x: y\n  - email: a\n{tail}");
    assert_eq!(emails(&parse_accounts(&loose)), ["a"]);
}

#[test]
fn a_missing_file_at_the_default_path_asks_for_nothing() {
    let (c, write) = load_config(&ConfigFile::Missing, false);
    assert!(c.match_keywords.is_empty());
    assert!(c.accounts.is_empty());
    assert!(c.notify_unmatched);
    assert!(!write);
    assert!(matches!(start(&c, false, false), StartPlan::Silent));
}

#[test]
fn a_missing_file_at_a_given_path_brings_the_sample() {
    let (c, write) = load_config(&ConfigFile::Missing, true);
    assert_eq!(c.match_keywords, SAMPLE_WORDS);
    assert!(c.accounts.is_empty());
    assert!(c.notify_unmatched);
    assert!(write);
    match start(&c, true, false) {
        StartPlan::Skip(note) => {
            assert_eq!(note, "No valid mail accounts configured; skipping mail listener.")
        }
        _ => panic!("expected a note"),
    }
}

#[test]
fn an_unreadable_file_counts_as_empty() {
    let (c, write) = load_config(&ConfigFile::Unreadable, true);
    assert!(c.match_keywords.is_empty() && c.accounts.is_empty() && c.notify_unmatched);
    assert!(!write);
}

#[test]
fn a_file_is_read_and_its_accounts_are_listened_to() {
    let (c, write) = load_config(&ConfigFile::Text(SAMPLE_YAML.to_string()), false);
    assert!(!write);
    match start(&c, false, true) {
        StartPlan::Listen { note, threads } => {
            assert_eq!(
                note,
                "Loaded 4 mail account(s) with 7 keyword(s); starting listeners…"
            );
            assert_eq!(threads, ["mail-QQ", "mail-126", "mail-sina", "mail-Gmail"]);
        }
        _ => panic!("expected listeners"),
    }
}
