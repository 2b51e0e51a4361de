//! What differs between the systems that the notifier runs on.
use vstd::prelude::*;

use crate::text::{chars_of, is_text};

verus! {

/// A system that the notifier runs on.
#[derive(Clone, Copy)]
pub enum Platform {
    Windows,
    MacOs,
    /// Here nothing is pasted, and nothing is shown.
    Other,
}

/// The name under which the notifier is known to Windows.
pub const APP_ID: &'static str = "howareyouo.SmsNotifier";

/// Whether the main loop is to be signalled that there is something to do. On Windows it waits
/// for that, once it has set up the signal; elsewhere it looks by itself.
pub fn wakeup(platform: Platform, installed: bool) -> (r: bool)
    ensures
        r == (platform is Windows && installed),
{
    match platform {
        Platform::Windows => installed,
        _ => false,
    }
}

/// The name under which the notifier is to be registered, where the system wants one.
pub fn configure(platform: Platform) -> (r: Option<&'static str>)
    ensures
        match r {
            Some(id) => platform is Windows && id@ == APP_ID@,
            None => !(platform is Windows),
        },
{
    match platform {
        Platform::Windows => Some(APP_ID),
        _ => None,
    }
}

// ───────────────────────── printing ─────────────────────────

/// Where a text is printed.
pub enum Outlet {
    Stdout,
    Stderr,
    /// In a message box with this title.
    MessageBox(&'static str),
    Nowhere,
}

/// What can be printed to.
#[derive(Clone, Copy)]
pub struct Console {
    pub platform: Platform,
    /// On Windows, whether the program that started this one has a console.
    pub attached: bool,
    /// On Windows, whether that console can be written to.
    pub writable: bool,
}

/// The title of a message box.
pub open spec fn box_title(is_error: bool) -> Seq<char> {
    if is_error {
        "SMS Notifier - Error"@
    } else {
        "SMS Notifier"@
    }
}

/// Where a text is printed: on the console where there is one, or else, on Windows, in a message
/// box.
pub fn print_to_console(console: Console, is_error: bool) -> (r: Outlet)
    ensures
        match r {
            Outlet::Stdout => !is_error && (console.platform is Windows ==> console.attached
                && console.writable),
            Outlet::Stderr => is_error && (console.platform is Windows ==> console.attached
                && console.writable),
            Outlet::MessageBox(title) => console.platform is Windows && !console.attached
                && title@ == box_title(is_error),
            Outlet::Nowhere => console.platform is Windows && console.attached
                && !console.writable,
        },
{
    if let Platform::Windows = console.platform {
        if !console.attached {
            return Outlet::MessageBox(
                if is_error {
                    "SMS Notifier - Error"
                } else {
                    "SMS Notifier"
                },
            );
        }
        if !console.writable {
            return Outlet::Nowhere;
        }
    }
    if is_error {
        Outlet::Stderr
    } else {
        Outlet::Stdout
    }
}

/// Where a text is printed.
pub fn print_out(console: Console) -> (r: Outlet)
    ensures
        r is Stdout <==> (console.platform is Windows ==> console.attached && console.writable),
        r is MessageBox <==> console.platform is Windows && !console.attached,
        r matches Outlet::MessageBox(title) ==> title@ == box_title(false),
        !(r is Stderr),
{
    print_to_console(console, false)
}

/// Where an error is printed.
pub fn print_err(console: Console) -> (r: Outlet)
    ensures
        r is Stderr <==> (console.platform is Windows ==> console.attached && console.writable),
        r is MessageBox <==> console.platform is Windows && !console.attached,
        r matches Outlet::MessageBox(title) ==> title@ == box_title(true),
        !(r is Stdout),
{
    print_to_console(console, true)
}

// ───────────────────────── the tray ─────────────────────────

/// What an item of the menu does.
pub enum MenuAction {
    OpenLogs,
    Quit,
    Nothing,
}

/// What the item of the menu with that name does.
pub fn menu_action(id: &str) -> (r: MenuAction)
    ensures
        r == (if id@ == "log"@ {
            MenuAction::OpenLogs
        } else if id@ == "exit"@ {
            MenuAction::Quit
        } else {
            MenuAction::Nothing
        }),
{
    let c: Vec<char> = chars_of(id);
    if is_text(c.as_slice(), "log") {
        MenuAction::OpenLogs
    } else if is_text(c.as_slice(), "exit") {
        MenuAction::Quit
    } else {
        MenuAction::Nothing
    }
}

/// Whether a click on the icon opens the log: the press of the left button does, its release
/// does not.
pub fn click_opens_logs(left_button: bool, pressed: bool) -> (r: bool)
    ensures
        r == (left_button && pressed),
{
    left_button && pressed
}

} // verus!
