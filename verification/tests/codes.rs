use sms_notifier::mail::message::extract_code;
use sms_notifier::sms::{react, SmsMessage};

fn sms(raw: &str) -> Option<(String, String)> {
    SmsMessage::extract_code(raw)
}

fn pair(a: &str, b: &str) -> Option<(String, String)> {
    Some((a.to_string(), b.to_string()))
}

#[test]
fn short_message_with_company_and_code() {
    assert_eq!(sms("【GitHub】您的验证码是 8888, 5分钟内有效。"), pair("GitHub", "8888"));
    assert_eq!(sms("您好【 公司 】验证码123456"), pair("公司", "123456"));
}

#[test]
fn short_message_prefers_the_longest_run() {
    assert_eq!(sms("【A】1234 或 12345678 或 87654321"), pair("A", "12345678"));
    assert_eq!(sms("【A】1234 5678"), pair("A", "1234"));
    assert_eq!(sms("【A】123456789 1234"), pair("A", "1234"));
}

#[test]
fn short_message_without_code_or_brackets() {
    assert_eq!(sms("验证码 1234"), None);
    assert_eq!(sms("【A 1234"), None);
    assert_eq!(sms("1234【A】"), None);
    assert_eq!(sms("【A】123 123456789"), None);
    assert_eq!(sms("】1234【A"), None);
    assert_eq!(sms(""), None);
}

#[test]
fn mail_code_is_six_then_five_then_four_digits() {
    assert_eq!(extract_code("1234 12345 123456 654321").as_deref(), Some("123456"));
    assert_eq!(extract_code("1234 54321 12345").as_deref(), Some("54321"));
    assert_eq!(extract_code("a4321b").as_deref(), Some("4321"));
    assert_eq!(extract_code("1234567 12345678"), None);
    assert_eq!(extract_code("123 １２３４"), None);
    assert_eq!(extract_code(""), None);
}

#[test]
fn a_bare_code_is_pasted_submitted_and_shown() {
    let r = react(SmsMessage::Code("1234".to_string())).unwrap();
    assert_eq!(r.paste, Some(("1234".to_string(), true)));
    assert_eq!(r.show, pair("收到验证码", "1234"));
    assert_eq!(r.warning, None);
}

#[test]
fn a_short_message_is_pasted_under_its_company() {
    let r = react(SmsMessage::Sms("【GitHub】 8888".to_string())).unwrap();
    assert_eq!(r.paste, Some(("8888".to_string(), true)));
    assert_eq!(r.show, pair("GitHub", "【GitHub】: 8888"));
    assert_eq!(r.warning, None);
}

#[test]
fn an_unreadable_short_message_is_logged_and_a_blank_one_is_not() {
    let r = react(SmsMessage::Sms("hello".to_string())).unwrap();
    assert_eq!(r.paste, None);
    assert_eq!(r.show, None);
    assert_eq!(
        r.warning.as_deref(),
        Some("Received via ?sms= (unrecognized format): hello")
    );
    assert!(react(SmsMessage::Sms(" \u{3000}\n".to_string())).is_none());
}

#[test]
fn a_notification_is_pasted_only_where_it_asks_for_that() {
    let notify = |auto_paste, submit| {
        react(SmsMessage::Notify {
            title: "t".to_string(),
            body: "b".to_string(),
            auto_paste,
            submit,
        })
        .unwrap()
    };
    assert_eq!(notify(false, true).paste, None);
    assert_eq!(notify(true, false).paste, Some(("b".to_string(), false)));
    assert_eq!(notify(true, true).paste, Some(("b".to_string(), true)));
    assert_eq!(notify(false, false).show, pair("t", "b"));
}
