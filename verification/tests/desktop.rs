use sms_notifier::browser::{
    center, is_log_window, open_logs_in_app, open_logs_in_browser, Launch, Screen,
};
use sms_notifier::keyboard::{copy_paste_submit, simulate_enter, simulate_paste, KeyEvent, KeyStep};
use sms_notifier::notification::notify_sms;
use sms_notifier::platform::{
    click_opens_logs, configure, menu_action, print_err, print_out, wakeup, Console, MenuAction,
    Outlet, Platform,
};

fn keys(v: &[KeyEvent]) -> Vec<(u16, bool, bool)> {
    v.iter().map(|k| (k.code, k.down, k.command)).collect()
}

#[test]
fn pasting_and_submitting() {
    assert_eq!(
        keys(&simulate_paste(Platform::Windows)),
        [(0x11, true, false), (0x56, true, false), (0x56, false, false), (0x11, false, false)]
    );
    assert_eq!(keys(&simulate_paste(Platform::MacOs)), [(9, true, true), (9, false, true)]);
    assert_eq!(keys(&simulate_paste(Platform::Other)), []);
    assert_eq!(keys(&simulate_enter(Platform::Windows)), [(13, true, false), (13, false, false)]);
    assert_eq!(keys(&simulate_enter(Platform::MacOs)), [(36, true, false), (36, false, false)]);
    assert_eq!(keys(&simulate_enter(Platform::Other)), []);
}

#[test]
fn enter_follows_the_paste_after_a_pause() {
    let steps = copy_paste_submit(Platform::MacOs, true, true);
    assert_eq!(steps.len(), 3);
    assert!(matches!(&steps[0], KeyStep::Keys(k) if k.len() == 2 && k[0].code == 9));
    assert!(matches!(steps[1], KeyStep::Pause(100)));
    assert!(matches!(&steps[2], KeyStep::Keys(k) if k[0].code == 36));
    assert_eq!(copy_paste_submit(Platform::MacOs, true, false).len(), 1);
    assert!(copy_paste_submit(Platform::Windows, false, true).is_empty());
}

#[test]
fn notifications_and_their_clicks() {
    let t = notify_sms(Platform::Windows, "t", "b").unwrap();
    assert_eq!((t.title.as_str(), t.body.as_str(), t.attempts), ("t", "b", 3));
    assert_eq!(t.after_failed_copy(0), (60, true));
    assert_eq!(t.after_failed_copy(1), (120, true));
    assert_eq!(t.after_failed_copy(2), (180, false));
    let t = notify_sms(Platform::MacOs, "t", "b").unwrap();
    assert_eq!(t.after_failed_copy(0), (0, false));
    assert!(notify_sms(Platform::Other, "t", "b").is_none());
}

#[test]
fn waking_and_registering() {
    assert!(wakeup(Platform::Windows, true));
    assert!(!wakeup(Platform::Windows, false));
    assert!(!wakeup(Platform::MacOs, true));
    assert_eq!(configure(Platform::Windows), Some("howareyouo.SmsNotifier"));
    assert_eq!(configure(Platform::Other), None);
}

#[test]
fn where_texts_are_printed() {
    let on = |platform, attached, writable| Console { platform, attached, writable };
    assert!(matches!(print_out(on(Platform::MacOs, false, false)), Outlet::Stdout));
    assert!(matches!(print_err(on(Platform::Other, false, false)), Outlet::Stderr));
    assert!(matches!(print_out(on(Platform::Windows, true, true)), Outlet::Stdout));
    assert!(matches!(print_err(on(Platform::Windows, true, true)), Outlet::Stderr));
    assert!(matches!(print_out(on(Platform::Windows, true, false)), Outlet::Nowhere));
    assert!(matches!(
        print_out(on(Platform::Windows, false, true)),
        Outlet::MessageBox("SMS Notifier")
    ));
    assert!(matches!(
        print_err(on(Platform::Windows, false, true)),
        Outlet::MessageBox("SMS Notifier - Error")
    ));
}

#[test]
fn the_tray() {
    assert!(matches!(menu_action("log"), MenuAction::OpenLogs));
    assert!(matches!(menu_action("exit"), MenuAction::Quit));
    assert!(matches!(menu_action("about"), MenuAction::Nothing));
    assert!(click_opens_logs(true, true));
    assert!(!click_opens_logs(true, false));
    assert!(!click_opens_logs(false, true));
}

#[test]
fn the_default_browser() {
    assert_eq!(
        open_logs_in_browser(Platform::Windows, 80),
        ["cmd", "/c", "start", "", "http://127.0.0.1:80/logs"]
    );
    assert_eq!(open_logs_in_browser(Platform::MacOs, 1), ["open", "http://127.0.0.1:1/logs"]);
    assert_eq!(open_logs_in_browser(Platform::Other, 1), ["xdg-open", "http://127.0.0.1:1/logs"]);
}

#[test]
fn a_window_of_its_own() {
    let screen = Screen { width: 1921, height: 600, profile: "C:\\p".to_string() };
    assert!(matches!(open_logs_in_app(Platform::Windows, 8, true, &screen), Launch::Focus));
    let commands = match open_logs_in_app(Platform::Windows, 8, false, &screen) {
        Launch::Run(c) => c,
        Launch::Focus => panic!("no window is open"),
    };
    assert_eq!(commands.len(), 3);
    assert_eq!(commands[0][..5], ["cmd", "/c", "start", "", "chrome"]);
    assert_eq!(commands[1][4], "msedge");
    assert_eq!(commands[0][5], "--app=http://127.0.0.1:8/logs");
    assert_eq!(commands[0][6], "--window-size=1000,700");
    assert_eq!(commands[0][7], "--window-position=460,-50");
    assert_eq!(commands[0][8], "--user-data-dir=C:\\p");
    assert_eq!(commands[0].len(), 29);
    assert_eq!(commands[0][28], "--no-first-run");
    assert_eq!(commands[0][5..], commands[1][5..]);
    assert_eq!(commands[2], open_logs_in_browser(Platform::Windows, 8));
    match open_logs_in_app(Platform::MacOs, 8, true, &screen) {
        Launch::Run(c) => assert_eq!(c, [open_logs_in_browser(Platform::MacOs, 8)]),
        Launch::Focus => panic!("only Windows has such a window"),
    }
}

#[test]
fn windows_stand_in_the_middle() {
    assert_eq!(center(1920, 1000), 460);
    assert_eq!(center(999, 1000), 0);
    assert_eq!(center(995, 1000), -2);
    assert!(is_log_window("SMS Notifier Logs - Chrome"));
    assert!(!is_log_window("SMS Notifier"));
}
