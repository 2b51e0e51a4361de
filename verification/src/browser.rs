//! Showing the log in a browser.
use vstd::prelude::*;

use crate::number::{
    decimal, divide, numbers_may_have_signs_and_zeros, push_decimal, quotient, signed,
};
use crate::platform::Platform;
use crate::text::{chars_of, contains_text, copy_string, push_text, string_of, texts, within};

verus! {

/// The size of the window that shows the log.
pub const WINDOW_WIDTH: i32 = 1000;

pub const WINDOW_HEIGHT: i32 = 700;

/// The title of the page that shows the log.
pub const LOG_WINDOW_TITLE: &'static str = "SMS Notifier Logs";

/// The address of the page that shows the log.
pub open spec fn logs_url(port: u16) -> Seq<char> {
    "http://127.0.0.1:"@ + decimal(port as nat) + "/logs"@
}

/// The address of the page that shows the log.
pub fn url_of_logs(port: u16) -> (r: String)
    ensures
        r@ == logs_url(port),
{
    let mut out: Vec<char> = chars_of("http://127.0.0.1:");
    push_decimal(&mut out, port as u64);
    push_text(&mut out, "/logs");
    string_of(out.as_slice())
}

/// Adds an argument to a command.
fn argument(out: &mut Vec<String>, s: &str)
    ensures
        texts(final(out)@) == texts(old(out)@).push(s@),
{
    out.push(copy_string(s));
    assert(texts(out@) =~= texts(old(out)@).push(s@));
}

/// The command that opens an address in the default browser: the program, and its arguments.
pub open spec fn open_command(platform: Platform, url: Seq<char>) -> Seq<Seq<char>> {
    match platform {
        Platform::Windows => seq!["cmd"@, "/c"@, "start"@, ""@, url],
        Platform::MacOs => seq!["open"@, url],
        Platform::Other => seq!["xdg-open"@, url],
    }
}

/// The command that opens the log in the default browser.
pub fn open_logs_in_browser(platform: Platform, port: u16) -> (r: Vec<String>)
    ensures
        texts(r@) == open_command(platform, logs_url(port)),
{
    let url: String = url_of_logs(port);
    let mut out: Vec<String> = Vec::new();
    assert(texts(out@) =~= seq![]);
    match platform {
        Platform::Windows => {
            argument(&mut out, "cmd");
            argument(&mut out, "/c");
            argument(&mut out, "start");
            argument(&mut out, "");
        },
        Platform::MacOs => {
            argument(&mut out, "open");
        },
        Platform::Other => {
            argument(&mut out, "xdg-open");
        },
    }
    argument(&mut out, url.as_str());
    assert(texts(out@) =~= open_command(platform, logs_url(port)));
    out
}

// ───────────────────────── a window of its own ─────────────────────────

/// `n` in decimal, with its sign.
pub open spec fn signed_decimal(n: int) -> Seq<char> {
    if n < 0 {
        "-"@ + decimal((-n) as nat)
    } else {
        decimal(n as nat)
    }
}

/// Appends `n` in decimal, with its sign, to `out`.
fn push_signed(out: &mut Vec<char>, n: i32)
    ensures
        final(out)@ == old(out)@ + signed_decimal(n as int),
{
    if n < 0 {
        push_text(out, "-");
        push_decimal(out, (-(n as i64)) as u64);
    } else {
        push_decimal(out, n as u64);
    }
    assert(out@ =~= old(out)@ + signed_decimal(n as int));
}

/// Where a window of that size starts, to stand in the middle of the screen.
pub open spec fn centered(screen: int, window: int) -> int {
    quotient(screen - window, 2)
}

/// Where a window of that size starts, to stand in the middle of the screen.
pub fn center(screen: i32, window: i32) -> (r: i32)
    ensures
        r == centered(screen as int, window as int),
{
    divide(screen as i64 - window as i64, 2) as i32
}

/// Two numbers with a comma between them, behind the name of an option.
pub open spec fn pair_option(name: Seq<char>, a: int, b: int) -> Seq<char> {
    name + signed_decimal(a) + ","@ + signed_decimal(b)
}

/// Two numbers with a comma between them, behind the name of an option.
fn option_with_pair(name: &str, a: i32, b: i32) -> (r: String)
    ensures
        r@ == pair_option(name@, a as int, b as int),
{
    let mut out: Vec<char> = chars_of(name);
    push_signed(&mut out, a);
    push_text(&mut out, ",");
    push_signed(&mut out, b);
    string_of(out.as_slice())
}

/// The options that open the log in a window of its own, in the middle of the screen, without
/// what a log does not need.
pub open spec fn app_options(port: u16, width: int, height: int, profile: Seq<char>) -> Seq<
    Seq<char>,
> {
    seq![
        "--app="@ + logs_url(port),
        pair_option("--window-size="@, WINDOW_WIDTH as int, WINDOW_HEIGHT as int),
        pair_option(
            "--window-position="@,
            centered(width, WINDOW_WIDTH as int),
            centered(height, WINDOW_HEIGHT as int),
        ),
        "--user-data-dir="@ + profile,
        "--disable-features=Translate,OptimizationHints,MediaRouter,AutofillServerCommunication,AutofillCreditCardAuthentication"@,
        "--enable-features=OverlayScrollbar"@,
        "--disk-cache-size=10240"@,
        "--media-cache-size=10240"@,
        "--disable-background-networking"@,
        "--disable-component-update"@,
        "--disable-metrics-reporting"@,
        "--disable-default-apps"@,
        "--disable-extensions"@,
        "--disable-translate"@,
        "--disable-metrics"@,
        "--disable-plugins"@,
        "--disable-sync"@,
        "--disable-gpu"@,
        "--dns-prefetch-disable"@,
        "--process-per-site"@,
        "--force-dark-mode"@,
        "--base-background-color=0xFF1E1E1E"@,
        "--no-default-browser-check"@,
        "--no-first-run"@,
    ]
}

/// The command that opens the log with `browser`, in a window of its own.
pub open spec fn app_command(
    browser: Seq<char>,
    port: u16,
    width: int,
    height: int,
    profile: Seq<char>,
) -> Seq<Seq<char>> {
    seq!["cmd"@, "/c"@, "start"@, ""@, browser] + app_options(port, width, height, profile)
}

/// The screen, and where the browser keeps its state for the log.
pub struct Screen {
    pub width: i32,
    pub height: i32,
    pub profile: String,
}

/// The command that opens the log with `browser`, in a window of its own.
pub fn start_app(browser: &str, port: u16, screen: &Screen) -> (r: Vec<String>)
    ensures
        texts(r@) == app_command(
            browser@,
            port,
            screen.width as int,
            screen.height as int,
            screen.profile@,
        ),
{
    let x: i32 = center(screen.width, WINDOW_WIDTH);
    let y: i32 = center(screen.height, WINDOW_HEIGHT);
    let mut app: Vec<char> = chars_of("--app=");
    push_text(&mut app, url_of_logs(port).as_str());
    let mut profile: Vec<char> = chars_of("--user-data-dir=");
    push_text(&mut profile, screen.profile.as_str());
    let mut out: Vec<String> = Vec::new();
    assert(texts(out@) =~= seq![]);
    argument(&mut out, "cmd");
    argument(&mut out, "/c");
    argument(&mut out, "start");
    argument(&mut out, "");
    argument(&mut out, browser);
    assert(texts(out@) =~= seq!["cmd"@, "/c"@, "start"@, ""@, browser@]);
    argument(&mut out, string_of(app.as_slice()).as_str());
    argument(
        &mut out,
        option_with_pair("--window-size=", WINDOW_WIDTH, WINDOW_HEIGHT).as_str(),
    );
    argument(&mut out, option_with_pair("--window-position=", x, y).as_str());
    argument(&mut out, string_of(profile.as_slice()).as_str());
    argument(
        &mut out,
        "--disable-features=Translate,OptimizationHints,MediaRouter,AutofillServerCommunication,AutofillCreditCardAuthentication",
    );
    argument(&mut out, "--enable-features=OverlayScrollbar");
    argument(&mut out, "--disk-cache-size=10240");
    argument(&mut out, "--media-cache-size=10240");
    argument(&mut out, "--disable-background-networking");
    argument(&mut out, "--disable-component-update");
    argument(&mut out, "--disable-metrics-reporting");
    argument(&mut out, "--disable-default-apps");
    argument(&mut out, "--disable-extensions");
    argument(&mut out, "--disable-translate");
    argument(&mut out, "--disable-metrics");
    argument(&mut out, "--disable-plugins");
    argument(&mut out, "--disable-sync");
    argument(&mut out, "--disable-gpu");
    argument(&mut out, "--dns-prefetch-disable");
    argument(&mut out, "--process-per-site");
    argument(&mut out, "--force-dark-mode");
    argument(&mut out, "--base-background-color=0xFF1E1E1E");
    argument(&mut out, "--no-default-browser-check");
    argument(&mut out, "--no-first-run");
    assert(texts(out@) =~= app_command(
        browser@,
        port,
        screen.width as int,
        screen.height as int,
        screen.profile@,
    ));
    out
}

/// Whether the title of a window is that of the log.
pub fn is_log_window(title: &str) -> (r: bool)
    ensures
        r == within(title@, LOG_WINDOW_TITLE@),
{
    contains_text(chars_of(title).as_slice(), LOG_WINDOW_TITLE)
}

/// How the log is shown.
pub enum Launch {
    /// Bring the window that shows it to the front.
    Focus,
    /// Run the first of these commands that can be run.
    Run(Vec<Vec<String>>),
}

/// What the commands are.
pub open spec fn command_views(v: Seq<Vec<String>>) -> Seq<Seq<Seq<char>>> {
    Seq::new(v.len(), |i: int| texts(v[i]@))
}

/// How the log is shown. On Windows that is in a window of its own: the one that is open, or else
/// one of Chrome, or of Edge. Where neither can be run, and on other systems, it is the default
/// browser.
pub fn open_logs_in_app(platform: Platform, port: u16, window_open: bool, screen: &Screen) -> (r:
    Launch)
    ensures
        match r {
            Launch::Focus => platform is Windows && window_open,
            Launch::Run(commands) => {
                let w = screen.width as int;
                let h = screen.height as int;
                let p = screen.profile@;
                let last = open_command(platform, logs_url(port));
                &&& !(platform is Windows && window_open)
                &&& command_views(commands@) == (if platform is Windows {
                    seq![
                        app_command("chrome"@, port, w, h, p),
                        app_command("msedge"@, port, w, h, p),
                        last,
                    ]
                } else {
                    seq![last]
                })
            },
        },
{
    let mut commands: Vec<Vec<String>> = Vec::new();
    if let Platform::Windows = platform {
        if window_open {
            return Launch::Focus;
        }
        commands.push(start_app("chrome", port, screen));
        commands.push(start_app("msedge", port, screen));
    }
    commands.push(open_logs_in_browser(platform, port));
    proof {
        let w = screen.width as int;
        let h = screen.height as int;
        let p = screen.profile@;
        let last = open_command(platform, logs_url(port));
        if platform is Windows {
            assert(command_views(commands@) =~= seq![
                app_command("chrome"@, port, w, h, p),
                app_command("msedge"@, port, w, h, p),
                last,
            ]);
        } else {
            assert(command_views(commands@) =~= seq![last]);
        }
    }
    Launch::Run(commands)
}

// ───────────────────────── laws ─────────────────────────

/// The window stands in the middle: what is left of the screen on its two sides differs by no
/// more than one, also where the screen is the smaller of the two.
pub proof fn the_window_is_centered(screen: int, window: int)
    ensures
        -1 <= (screen - window - centered(screen, window)) - centered(screen, window) <= 1,
{
}

/// The log is opened where it is served, on every system: the address is the last thing that the
/// command is given, or what the window is opened with.
pub proof fn the_log_is_what_is_opened(
    platform: Platform,
    browser: Seq<char>,
    port: u16,
    width: int,
    height: int,
    profile: Seq<char>,
)
    ensures
        open_command(platform, logs_url(port)).last() == "http://127.0.0.1:"@ + decimal(port as nat)
            + "/logs"@,
        app_command(browser, port, width, height, profile)[4] == browser,
        app_command(browser, port, width, height, profile)[5] == "--app="@ + "http://127.0.0.1:"@
            + decimal(port as nat) + "/logs"@,
{
    assert("--app="@ + logs_url(port) =~= "--app="@ + "http://127.0.0.1:"@ + decimal(port as nat)
        + "/logs"@);
}

/// Numbers are written so that they can be read back, with a minus sign where they are negative.
pub proof fn signed_numbers_are_read_back(n: int)
    requires
        -2147483648 <= n <= 2147483647,
    ensures
        signed(signed_decimal(n), 2147483647) == Some(n),
{
    reveal_strlit("-");
    if n < 0 {
        numbers_may_have_signs_and_zeros((-n) as nat, 2147483647);
        assert("-"@ =~= seq!['-']);
    } else {
        numbers_may_have_signs_and_zeros(n as nat, 2147483647);
    }
}

/// The window has its size, stands in the middle of the screen, and keeps its state where it is
/// told to.
pub proof fn the_window_is_opened_as_wanted(
    browser: Seq<char>,
    port: u16,
    width: int,
    height: int,
    profile: Seq<char>,
)
    ensures
        ({
            let c = app_command(browser, port, width, height, profile);
            &&& c[6] == "--window-size="@ + signed_decimal(1000) + ","@ + signed_decimal(700)
            &&& c[7] == "--window-position="@ + signed_decimal(centered(width, 1000)) + ","@
                + signed_decimal(centered(height, 700))
            &&& c[8] == "--user-data-dir="@ + profile
        }),
{
}

} // verus!
