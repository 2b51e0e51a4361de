//! Listening to one mailbox: when to connect again, which messages are new, and what is said
//! of them.
//!
//! How soon a lost connection is tried again depends on what the server is known to be. One
//! that pushes is tried again soon, and always after the same pause: long connections are what
//! it expects. One that has to be asked is tried less and less often. Before the first
//! connection, three quick attempts come first.
use std::collections::HashSet;
use vstd::prelude::*;
use vstd::std_specs::hash::group_hash_axioms;
use vstd::utf8::is_ascii_chars;

use crate::code::{
    a_lone_code_is_found, best_run, code_is_first_longest_run, longest_code, run_at,
};
use crate::mail::config::{Account, AccountView, FALLBACK, MAX_POLL_INTERVAL, STARTUP_RECENT_SECONDS};
use crate::mail::dates::{parse_internaldate_age_secs, received_at};
use crate::mail::imap_client::{ascending, in_order, insert_sorted, lemma_in_order};
use crate::mail::message::{
    any_within, extract_code, has_match_keyword, lowercase_all, MailView, ParsedMessage,
};
use crate::number::{decimal, push_decimal};
use crate::sms::{opt_sms, reaction_to, SmsMessage, SmsView};
use crate::text::{
    ascii_lower, chars_of, copy_string, is_digit, occurs, push_text, string_of, texts, within,
};
use crate::unicode::lower_case;

verus! {

/// The pause before a server that pushes is tried again, in seconds.
pub const IDLE_RECONNECT_SECS: u64 = 5;

// ───────────────────────── connecting again ─────────────────────────

/// When to connect again.
pub struct Reconnect {
    /// The interval at which a server is asked where nothing goes wrong, in seconds.
    pub base: u64,
    /// The interval at present, in seconds.
    pub interval: u64,
    /// The attempts that have failed since the last that did not.
    pub fail_count: u32,
    /// Whether the server pushes; `None` before the first session.
    pub supports_idle: Option<bool>,
}

/// The interval after a failure: half as long again, up to the longest one.
pub open spec fn backed_off(interval: int) -> int {
    let longer = interval * 3 / 2;
    if longer < MAX_POLL_INTERVAL {
        longer
    } else {
        MAX_POLL_INTERVAL as int
    }
}

/// The interval after a failure.
pub fn backoff(interval: u64) -> (r: u64)
    ensures
        r == backed_off(interval as int),
{
    if interval >= 200 {
        MAX_POLL_INTERVAL
    } else {
        interval * 3 / 2
    }
}

/// The state before the first session with an account of that polling interval, where the interval
/// `last` worked last.
pub open spec fn starting(poll: u64, last: Option<u64>) -> Reconnect {
    let base = if poll < FALLBACK {
        FALLBACK
    } else {
        poll
    };
    Reconnect {
        base,
        interval: match last {
            Some(n) if n > base => n,
            _ => base,
        },
        fail_count: 0,
        supports_idle: None,
    }
}

/// The pauses of the quick attempts before the first session, in seconds.
pub open spec fn fast_retry(attempt: int) -> int {
    if attempt == 1 {
        1
    } else if attempt == 2 {
        2
    } else {
        5
    }
}

impl Reconnect {
    pub open spec fn wf(self) -> bool {
        self.base >= FALLBACK && self.interval >= FALLBACK
    }

    /// The interval after the next failure, in seconds.
    pub open spec fn interval_after_failure(self) -> int {
        match self.supports_idle {
            Some(true) => self.interval as int,
            Some(false) => backed_off(self.interval as int),
            None => if self.fail_count + 1 <= 3 {
                self.interval as int
            } else if self.fail_count + 1 == 4 {
                backed_off(self.base as int)
            } else {
                backed_off(self.interval as int)
            },
        }
    }

    /// The state after the next failure.
    pub open spec fn after_failure(self) -> Reconnect {
        Reconnect {
            interval: self.interval_after_failure() as u64,
            fail_count: (self.fail_count + 1) as u32,
            ..self
        }
    }

    /// The pause after the next failure, in seconds.
    pub open spec fn pause_after_failure(self) -> int {
        match self.supports_idle {
            Some(true) => IDLE_RECONNECT_SECS as int,
            Some(false) => self.interval_after_failure(),
            None => if self.fail_count + 1 <= 3 {
                fast_retry(self.fail_count + 1)
            } else {
                self.interval_after_failure()
            },
        }
    }

    /// The state before the first session with an account. The interval that last worked
    /// counts where it is longer than the account's own.
    pub fn new(account: &Account) -> (r: Reconnect)
        ensures
            r.wf(),
            r.base == (if account.poll_interval < FALLBACK {
                FALLBACK
            } else {
                account.poll_interval
            }),
            r.interval == (match account.last_ok_interval {
                Some(n) if n > r.base => n,
                _ => r.base,
            }),
            r.fail_count == 0,
            r.supports_idle is None,
            r == starting(account.poll_interval, account.last_ok_interval),
    {
        let base: u64 = if account.poll_interval < FALLBACK {
            FALLBACK
        } else {
            account.poll_interval
        };
        let interval: u64 = match account.last_ok_interval {
            Some(n) if n > base => n,
            _ => base,
        };
        Reconnect { base, interval, fail_count: 0, supports_idle: None }
    }

    /// The mailbox is open: failures are forgotten, and the interval is the account's own
    /// again. Gives whether that has changed it, so that it is to be saved.
    pub fn connected(&mut self) -> (r: bool)
        requires
            old(self).wf(),
        ensures
            final(self).wf(),
            r == (old(self).interval != old(self).base),
            final(self).interval == old(self).base,
            final(self).base == old(self).base,
            final(self).fail_count == 0,
            final(self).supports_idle == old(self).supports_idle,
    {
        self.fail_count = 0;
        if self.interval != self.base {
            self.interval = self.base;
            true
        } else {
            false
        }
    }

    /// The messages have been listed, and it is known whether the server pushes.
    pub fn session_started(&mut self, supports_idle: bool)
        ensures
            final(self).supports_idle == Some(supports_idle),
            final(self).interval == old(self).interval,
            final(self).base == old(self).base,
            final(self).fail_count == old(self).fail_count,
    {
        self.supports_idle = Some(supports_idle);
    }

    /// The session has failed. Gives the pause before the next attempt, in seconds.
    pub fn failed(&mut self) -> (r: u64)
        requires
            old(self).wf(),
            old(self).fail_count < u32::MAX,
        ensures
            final(self).wf(),
            r == old(self).pause_after_failure(),
            final(self).interval == old(self).interval_after_failure(),
            final(self).base == old(self).base,
            final(self).fail_count == old(self).fail_count + 1,
            final(self).supports_idle == old(self).supports_idle,
            *final(self) == old(self).after_failure(),
    {
        self.fail_count = self.fail_count + 1;
        match self.supports_idle {
            Some(true) => IDLE_RECONNECT_SECS,
            Some(false) => {
                self.interval = backoff(self.interval);
                self.interval
            },
            None => {
                if self.fail_count <= 3 {
                    if self.fail_count == 1 {
                        1
                    } else if self.fail_count == 2 {
                        2
                    } else {
                        5
                    }
                } else {
                    if self.fail_count == 4 {
                        self.interval = self.base;
                    }
                    self.interval = backoff(self.interval);
                    self.interval
                }
            },
        }
    }
}

/// What is logged before the pause of `pause` seconds that follows a failure, given the state after
/// it.
pub open spec fn retry_text(r: Reconnect, label: Seq<char>, pause: u64) -> Seq<char> {
    let p = decimal(pause as nat);
    "["@ + label + match r.supports_idle {
        Some(true) => "] IDLE connection lost; reconnecting in "@ + p,
        Some(false) => "] reconnect interval set to "@ + decimal(r.interval as nat)
            + "s; reconnecting in "@ + p,
        None => if r.fail_count <= 3 {
            "] fast retry #"@ + decimal(r.fail_count as nat) + " in "@ + p
        } else {
            "] poll interval adjusted to "@ + decimal(r.interval as nat)
                + "s on error; reconnecting in "@ + p
        },
    } + "s"@
}

impl Reconnect {
    /// What is logged before the pause that follows a failure.
    pub fn retry_note(&self, label: &str, pause: u64) -> (r: String)
        ensures
            r@ == retry_text(*self, label@, pause),
    {
        let mut out: Vec<char> = chars_of("[");
        push_text(&mut out, label);
        match self.supports_idle {
            Some(true) => {
                push_text(&mut out, "] IDLE connection lost; reconnecting in ");
            },
            Some(false) => {
                push_text(&mut out, "] reconnect interval set to ");
                push_decimal(&mut out, self.interval);
                push_text(&mut out, "s; reconnecting in ");
            },
            None => {
                if self.fail_count <= 3 {
                    push_text(&mut out, "] fast retry #");
                    push_decimal(&mut out, self.fail_count as u64);
                    push_text(&mut out, " in ");
                } else {
                    push_text(&mut out, "] poll interval adjusted to ");
                    push_decimal(&mut out, self.interval);
                    push_text(&mut out, "s on error; reconnecting in ");
                }
            },
        }
        push_decimal(&mut out, pause);
        push_text(&mut out, "s");
        assert(out@ =~= retry_text(*self, label@, pause));
        string_of(out.as_slice())
    }
}

/// What to do until the mailbox is looked at again.
pub enum Watch {
    /// Wait for a push, for at most so many seconds.
    Push(u64),
    /// Sleep for so many seconds.
    Poll(u64),
}

impl Reconnect {
    /// What to do until the mailbox is looked at again.
    pub open spec fn watching(self) -> Watch {
        if self.supports_idle == Some(true) {
            Watch::Push(self.interval)
        } else {
            Watch::Poll(self.interval)
        }
    }

    /// What to do until the mailbox is looked at again.
    pub fn watch(&self) -> (r: Watch)
        ensures
            r == self.watching(),
    {
        match self.supports_idle {
            Some(true) => Watch::Push(self.interval),
            _ => Watch::Poll(self.interval),
        }
    }
}

// ───────────────────────── new messages ─────────────────────────

/// The messages that have not been seen, in the order in which they are listed.
pub open spec fn unseen(current: Seq<u32>, seen: Set<u32>) -> Seq<u32>
    decreases current.len(),
{
    if current.len() == 0 {
        seq![]
    } else {
        let front = unseen(current.drop_last(), seen);
        if seen.contains(current.last()) {
            front
        } else {
            front.push(current.last())
        }
    }
}

/// The messages that have not been seen, in ascending order.
pub fn new_uids(current: &[u32], seen: &HashSet<u32>) -> (r: Vec<u32>)
    ensures
        r@ == in_order(unseen(current@, seen@)),
        ascending(r@),
{
    broadcast use group_hash_axioms;

    let mut out: Vec<u32> = Vec::new();
    let mut i: usize = 0;
    assert(out@ =~= unseen(current@.take(0), seen@));
    while i < current.len()
        invariant
            i <= current@.len(),
            ascending(out@),
            out@.to_multiset() == unseen(current@.take(i as int), seen@).to_multiset(),
        decreases current.len() - i,
    {
        assert(current@.take(i + 1).drop_last() =~= current@.take(i as int));
        assert(current@.take(i + 1).last() == current@[i as int]);
        if !seen.contains(&current[i]) {
            proof {
                broadcast use vstd::seq_lib::group_to_multiset_ensures;

            }
            insert_sorted(&mut out, current[i]);
        }
        i += 1;
    }
    assert(current@.take(i as int) =~= current@);
    proof {
        lemma_in_order(out@, unseen(current@, seen@));
    }
    out
}

/// The messages that count as seen once those listed have been looked at: the listed ones. The
/// ones that are gone from the mailbox are forgotten.
pub fn seen_after(current: &[u32]) -> (r: HashSet<u32>)
    ensures
        r@ == current@.to_set(),
{
    broadcast use group_hash_axioms;

    let mut out: HashSet<u32> = HashSet::new();
    let mut i: usize = 0;
    assert(current@.take(0).to_set() =~= Set::empty());
    while i < current.len()
        invariant
            i <= current@.len(),
            out@ =~= current@.take(i as int).to_set(),
        decreases current.len() - i,
    {
        out.insert(current[i]);
        proof {
            let a = current@.take(i as int);
            let b = current@.take(i + 1);
            assert(b =~= a.push(current@[i as int]));
            assert forall|x: u32| b.to_set().contains(x) <==> a.to_set().insert(
                current@[i as int],
            ).contains(x) by {
                if a.contains(x) {
                    let k = choose|k: int| 0 <= k < a.len() && a[k] == x;
                    assert(b[k] == x);
                }
                if x == current@[i as int] {
                    assert(b[i as int] == x);
                }
                if b.contains(x) {
                    let k = choose|k: int| 0 <= k < b.len() && b[k] == x;
                    if k < i {
                        assert(a[k] == x);
                    }
                }
            }
            assert(b.to_set() =~= a.to_set().insert(current@[i as int]));
        }
        i += 1;
    }
    assert(current@.take(i as int) =~= current@);
    out
}

/// The message to look at when a session starts: the last one.
pub fn latest(uids: &[u32]) -> (r: Option<u32>)
    ensures
        r == (if uids@.len() == 0 {
            None
        } else {
            Some(uids@.last())
        }),
{
    if uids.len() == 0 {
        None
    } else {
        Some(uids[uids.len() - 1])
    }
}

/// A message with that date is too old to be looked at when a session starts. One whose date is
/// not known, or cannot be read, is not.
pub open spec fn stale(date: Option<Seq<char>>, now: int) -> bool {
    match date {
        Some(s) => match received_at(s) {
            Some(t) => now - t > STARTUP_RECENT_SECONDS,
            None => false,
        },
        None => false,
    }
}

/// Whether a message with that date is too old to be looked at when a session starts.
pub fn is_stale(date: Option<&str>, now: i64) -> (r: bool)
    requires
        0 <= now <= 8_000_000_000_000_000_000,
    ensures
        r == stale(
            match date {
                Some(s) => Some(s@),
                None => None,
            },
            now as int,
        ),
{
    match date {
        Some(s) => match parse_internaldate_age_secs(s, now) {
            Some(age) => age > STARTUP_RECENT_SECONDS,
            None => false,
        },
        None => false,
    }
}

// ───────────────────────── what is said of a message ─────────────────────────

/// The subject to show.
pub open spec fn shown_subject(m: MailView) -> Seq<char> {
    if m.subject.len() == 0 {
        "验证码请查收"@
    } else {
        m.subject
    }
}

/// The text in which keywords and codes are looked for.
pub open spec fn searched_text(m: MailView) -> Seq<char> {
    shown_subject(m) + "\n"@ + m.from + "\n"@ + m.body
}

/// The code of a message, where it holds a keyword.
pub open spec fn code_in(m: MailView, keywords: Seq<Seq<char>>) -> Option<Seq<char>> {
    if any_within(lower_case(searched_text(m)), lowercase_all(keywords)) {
        longest_code(searched_text(m), 4, 6)
    } else {
        None
    }
}

/// The name of the account to show.
pub open spec fn shown_label(a: AccountView) -> Seq<char> {
    match a.label {
        Some(l) => l,
        None => a.email,
    }
}

/// What is logged of a message.
pub open spec fn mail_log(m: MailView, label: Seq<char>, code: Option<Seq<char>>) -> Seq<
    char,
> {
    let head = "📨 ["@ + label + "] 新邮件: ["@ + shown_subject(m) + " | "@ + m.from + "] :"@;
    let body = if m.body.len() == 0 {
        seq![]
    } else {
        "\n"@ + m.body
    };
    let tail = match code {
        Some(c) => "\n🔑 验证码已复制: "@ + c,
        None => seq![],
    };
    head + body + tail
}

/// What is notified of a message: its code, to be pasted but not submitted (nobody knows which
/// window has the focus), or else its sender, where `show_always` says so.
pub open spec fn mail_notice(
    m: MailView,
    label: Seq<char>,
    show_always: bool,
    code: Option<Seq<char>>,
) -> Option<SmsView> {
    let title = "📧 新邮件 ("@ + label + ")｜"@ + shown_subject(m);
    match code {
        Some(c) => Some(SmsView::Notify { title, body: c, auto_paste: true, submit: false }),
        None => if show_always {
            Some(
                SmsView::Notify { title, body: m.from, auto_paste: false, submit: false },
            )
        } else {
            None
        },
    }
}

/// The subject to show.
fn subject_of(m: &ParsedMessage) -> (r: Vec<char>)
    ensures
        r@ == shown_subject(m@),
{
    let s: Vec<char> = chars_of(m.subject.as_str());
    if s.len() == 0 {
        chars_of("验证码请查收")
    } else {
        s
    }
}

/// What is logged and what is notified of a message in which `code` was found.
pub fn mail_notification(
    m: &ParsedMessage,
    label: &str,
    show_always: bool,
    code: Option<String>,
) -> (r: (String, Option<SmsMessage>))
    ensures
        ({
            let c = match code {
                Some(c) => Some(c@),
                None => None,
            };
            &&& r.0@ == mail_log(m@, label@, c)
            &&& opt_sms(r.1) == mail_notice(m@, label@, show_always, c)
        }),
{
    let subject: Vec<char> = subject_of(m);
    let subject_text: String = string_of(subject.as_slice());
    let mut log: Vec<char> = chars_of("📨 [");
    push_text(&mut log, label);
    push_text(&mut log, "] 新邮件: [");
    push_text(&mut log, subject_text.as_str());
    push_text(&mut log, " | ");
    push_text(&mut log, m.from.as_str());
    push_text(&mut log, "] :");
    let body: Vec<char> = chars_of(m.body.as_str());
    let ghost head = log@;
    if body.len() > 0 {
        push_text(&mut log, "\n");
        push_text(&mut log, m.body.as_str());
        assert(log@ =~= head + ("\n"@ + m.body@));
    }
    let ghost middle = log@;
    if let Some(c) = &code {
        push_text(&mut log, "\n🔑 验证码已复制: ");
        push_text(&mut log, c.as_str());
        assert(log@ =~= middle + ("\n🔑 验证码已复制: "@ + c@));
    }
    assert(log@ =~= mail_log(
        m@,
        label@,
        match code {
            Some(c) => Some(c@),
            None => None,
        },
    ));
    let mut title: Vec<char> = chars_of("📧 新邮件 (");
    push_text(&mut title, label);
    push_text(&mut title, ")｜");
    push_text(&mut title, subject_text.as_str());
    let notice: Option<SmsMessage> = match code {
        Some(c) => Some(
            SmsMessage::Notify {
                title: string_of(title.as_slice()),
                body: c,
                auto_paste: true,
                submit: false,
            },
        ),
        None => if show_always {
            Some(
                SmsMessage::Notify {
                    title: string_of(title.as_slice()),
                    body: copy_string(m.from.as_str()),
                    auto_paste: false,
                    submit: false,
                },
            )
        } else {
            None
        },
    };
    (string_of(log.as_slice()), notice)
}

/// What is logged and what is notified of a message.
pub fn notify_message(
    m: &ParsedMessage,
    account: &Account,
    show_always: bool,
    keywords: &[String],
) -> (r: (String, Option<SmsMessage>))
    ensures
        ({
            let label = shown_label(account@);
            let code = code_in(m@, texts(keywords@));
            &&& r.0@ == mail_log(m@, label, code)
            &&& opt_sms(r.1) == mail_notice(m@, label, show_always, code)
        }),
{
    let subject: Vec<char> = subject_of(m);
    let mut all: Vec<char> = subject;
    push_text(&mut all, "\n");
    push_text(&mut all, m.from.as_str());
    push_text(&mut all, "\n");
    push_text(&mut all, m.body.as_str());
    let text: String = string_of(all.as_slice());
    let code: Option<String> = if has_match_keyword(text.as_str(), keywords) {
        extract_code(text.as_str())
    } else {
        None
    };
    mail_notification(m, account.label_or_email(), show_always, code)
}

// ───────────────────────── laws ─────────────────────────

/// Failures lengthen the interval, and never beyond the longest one; an interval beyond it is
/// cut back to it.
pub proof fn backoff_is_bounded(interval: int)
    requires
        interval >= FALLBACK,
    ensures
        FALLBACK <= backed_off(interval) <= MAX_POLL_INTERVAL,
        interval < MAX_POLL_INTERVAL ==> backed_off(interval) > interval,
{
}

/// The interval after `n` failures in a row of a server that has to be asked.
pub open spec fn backed_off_times(interval: int, n: nat) -> int
    decreases n,
{
    if n == 0 {
        interval
    } else {
        backed_off(backed_off_times(interval, (n - 1) as nat))
    }
}

/// From any interval of at least the shortest one, six failures in a row lead to the longest
/// one, and further failures keep it.
pub proof fn backoff_reaches_the_limit(interval: int, n: nat)
    requires
        interval >= FALLBACK,
        n >= 6,
    ensures
        backed_off_times(interval, n) == MAX_POLL_INTERVAL,
    decreases n,
{
    if n == 6 {
        reveal_with_fuel(backed_off_times, 7);
        let a = backed_off(interval);
        let b = backed_off(a);
        let c = backed_off(b);
        let d = backed_off(c);
        let e = backed_off(d);
        assert(a >= 45);
        assert(b >= 67);
        assert(c >= 100);
        assert(d >= 150);
        assert(e >= 225);
        assert(backed_off(e) == 300);
        assert(backed_off_times(interval, 6) == backed_off(e));
    } else {
        backoff_reaches_the_limit(interval, (n - 1) as nat);
    }
}

/// A server that pushes is always tried again after the same short pause, and its interval does
/// not change.
pub proof fn pushing_servers_do_not_back_off(s: Reconnect)
    requires
        s.supports_idle == Some(true),
    ensures
        s.pause_after_failure() == 5,
        s.interval_after_failure() == s.interval,
{
}

/// A failure makes the interval half as long again, up to five minutes.
pub proof fn intervals_grow_by_half(interval: int)
    requires
        interval >= 0,
    ensures
        interval < 200 ==> 2 * backed_off(interval) == 3 * interval - interval % 2,
        interval >= 200 ==> backed_off(interval) == 300,
{
}

/// No mailbox is asked more often than every half a minute, nor more often than its account says,
/// nor than what worked last; and it is asked as often as these allow.
pub proof fn intervals_start_where_they_worked(poll: u64, last: Option<u64>)
    ensures
        ({
            let r = starting(poll, last);
            let n = match last {
                Some(n) => n,
                None => 0,
            };
            &&& r.base >= 30 && r.base >= poll && (r.base == 30 || r.base == poll)
            &&& r.interval >= r.base && r.interval >= n && (r.interval == r.base || r.interval
                == n)
            &&& r.fail_count == 0
            &&& r.supports_idle is None
        }),
{
}

/// The state after `n` failures in a row.
pub open spec fn after_failures(s: Reconnect, n: nat) -> Reconnect
    decreases n,
{
    if n == 0 {
        s
    } else {
        after_failures(s, (n - 1) as nat).after_failure()
    }
}

proof fn lemma_failures(s: Reconnect, n: nat)
    requires
        s.wf(),
        s.fail_count + n <= u32::MAX,
    ensures
        after_failures(s, n).wf(),
        after_failures(s, n).base == s.base,
        after_failures(s, n).fail_count == s.fail_count + n,
        after_failures(s, n).supports_idle == s.supports_idle,
    decreases n,
{
    if n > 0 {
        lemma_failures(s, (n - 1) as nat);
    }
}

/// Before the first session there are three quick attempts, after one, two and five seconds. From
/// then on the pauses grow from the account's own interval.
pub proof fn quick_attempts_come_first(s: Reconnect, n: nat)
    requires
        s.wf(),
        s.supports_idle is None,
        s.fail_count == 0,
        n < u32::MAX,
    ensures
        after_failures(s, 0).pause_after_failure() == 1,
        after_failures(s, 1).pause_after_failure() == 2,
        after_failures(s, 2).pause_after_failure() == 5,
        n >= 3 ==> after_failures(s, n).pause_after_failure() == backed_off_times(
            s.base as int,
            (n - 2) as nat,
        ),
    decreases n,
{
    lemma_failures(s, 0);
    lemma_failures(s, 1);
    lemma_failures(s, 2);
    lemma_failures(s, n);
    if n == 3 {
        reveal_with_fuel(backed_off_times, 2);
    } else if n > 3 {
        let m = (n - 1) as nat;
        quick_attempts_come_first(s, m);
        lemma_failures(s, m);
        let t = after_failures(s, m);
        assert(t.pause_after_failure() == t.interval_after_failure());
        assert(after_failures(s, n).interval == t.interval_after_failure());
    }
}

/// A server that has to be asked is tried again after pauses that grow from the interval at which
/// it was asked.
pub proof fn asked_servers_are_tried_less_and_less(s: Reconnect, n: nat)
    requires
        s.wf(),
        s.supports_idle == Some(false),
        s.fail_count + n < u32::MAX,
    ensures
        after_failures(s, n).pause_after_failure() == backed_off_times(s.interval as int, n + 1),
        after_failures(s, n).interval == backed_off_times(s.interval as int, n),
    decreases n,
{
    lemma_failures(s, n);
    if n > 0 {
        let m = (n - 1) as nat;
        asked_servers_are_tried_less_and_less(s, m);
        lemma_failures(s, m);
    }
    assert(backed_off_times(s.interval as int, n + 1) == backed_off(
        backed_off_times(s.interval as int, n),
    ));
}

/// A message that came no more than five minutes ago is looked at when a session starts, and an
/// older one is not. One whose date says nothing is.
pub proof fn only_recent_messages_are_looked_at(date: Seq<char>, now: int)
    ensures
        !stale(None, now),
        received_at(date) is None ==> !stale(Some(date), now),
        received_at(date) matches Some(t) ==> (stale(Some(date), now) <==> t + 300 < now),
{
}

/// There is always a pause, and never one beyond the longest interval.
pub proof fn pauses_are_bounded(s: Reconnect)
    requires
        s.wf(),
    ensures
        1 <= s.pause_after_failure() <= MAX_POLL_INTERVAL,
{
}

/// What `unseen` lists is listed, has not been seen, and nothing else is left out.
pub proof fn lemma_unseen(current: Seq<u32>, seen: Set<u32>)
    ensures
        forall|u: u32| #[trigger]
            unseen(current, seen).contains(u) <==> current.contains(u) && !seen.contains(u),
    decreases current.len(),
{
    if current.len() > 0 {
        let front = current.drop_last();
        lemma_unseen(front, seen);
        let a = unseen(front, seen);
        let all = unseen(current, seen);
        let x = current.last();
        assert forall|u: u32| #[trigger] all.contains(u) <==> current.contains(u) && !seen.contains(
            u,
        ) by {
            if all.contains(u) {
                let k = choose|k: int| 0 <= k < all.len() && all[k] == u;
                if k < a.len() {
                    assert(a[k] == u);
                    assert(a.contains(u));
                    let j = choose|j: int| 0 <= j < front.len() && front[j] == u;
                    assert(current[j] == u);
                } else {
                    assert(u == x);
                    assert(current[current.len() - 1] == u);
                }
            }
            if current.contains(u) && !seen.contains(u) {
                let j = choose|j: int| 0 <= j < current.len() && current[j] == u;
                if j < front.len() {
                    assert(front[j] == u);
                    assert(front.contains(u));
                    assert(a.contains(u));
                    let k = choose|k: int| 0 <= k < a.len() && a[k] == u;
                    assert(all[k] == u);
                } else {
                    assert(all[all.len() - 1] == u);
                }
            }
        }
    }
}

/// Every message is looked at once: of two looks at the mailbox, the second takes up exactly
/// the messages that the first did not list.
pub proof fn messages_are_new_once(first: Seq<u32>, second: Seq<u32>)
    ensures
        forall|u: u32| #[trigger]
            unseen(second, first.to_set()).contains(u) <==> second.contains(u) && !first.contains(
                u,
            ),
{
    lemma_unseen(second, first.to_set());
    assert forall|u: u32| first.to_set().contains(u) <==> first.contains(u) by {}
}

/// A mail is never submitted, and only a code is pasted.
pub proof fn mail_is_never_submitted(
    m: MailView,
    label: Seq<char>,
    show_always: bool,
    code: Option<Seq<char>>,
)
    ensures
        mail_notice(m, label, show_always, code) is Some <==> code is Some || show_always,
        mail_notice(m, label, show_always, code) matches Some(n) ==> {
            &&& n is Notify
            &&& !n->submit
            &&& n->auto_paste <==> code is Some
            &&& n->auto_paste ==> Some(n->body) == code
        },
{
}

/// The code of a mail is shown and pasted, and Enter is not pressed. Of a mail without a code
/// the sender is shown, where that is wanted, and nothing is pasted.
pub proof fn mail_codes_are_pasted(
    m: MailView,
    label: Seq<char>,
    show_always: bool,
    code: Option<Seq<char>>,
)
    ensures
        mail_notice(m, label, show_always, code) matches Some(n) ==> {
            &&& reaction_to(n) matches Some(r)
            &&& r.paste == (match code {
                Some(c) => Some((c, false)),
                None => None,
            })
            &&& r.show matches Some((title, body)) && body == (match code {
                Some(c) => c,
                None => m.from,
            })
        },
{
}

/// The subject, the sender and the body of a message, on lines of their own.
proof fn lemma_searched(m: MailView)
    ensures
        searched_text(m) == shown_subject(m) + seq!['\n'] + m.from + seq!['\n'] + m.body,
{
    reveal_strlit("\n");
    assert("\n"@ =~= seq!['\n']);
}

/// A mail is searched for a code where a keyword stands in it: in its subject, in its sender or in
/// its body, in any case. The code is then looked for in all three, each on a line of its own.
pub proof fn a_keyword_anywhere_in_a_mail_counts(
    m: MailView,
    keywords: Seq<Seq<char>>,
    k: int,
    i: int,
)
    requires
        m.subject.len() > 0,
        is_ascii_chars(m.subject),
        is_ascii_chars(m.from),
        is_ascii_chars(m.body),
        0 <= k < keywords.len(),
        is_ascii_chars(keywords[k]),
        occurs(ascii_lower(m.subject), ascii_lower(keywords[k]), i) || occurs(
            ascii_lower(m.from),
            ascii_lower(keywords[k]),
            i,
        ) || occurs(ascii_lower(m.body), ascii_lower(keywords[k]), i),
    ensures
        code_in(m, keywords) == longest_code(
            m.subject + seq!['\n'] + m.from + seq!['\n'] + m.body,
            4,
            6,
        ),
{
    let all = m.subject + seq!['\n'] + m.from + seq!['\n'] + m.body;
    let key = ascii_lower(keywords[k]);
    lemma_searched(m);
    let a = m.subject.len() as int;
    let b = a + 1 + m.from.len();
    assert forall|j: int| 0 <= j < all.len() implies '\0' <= #[trigger] all[j] <= '\u{7f}' by {
        if j < a {
            assert(all[j] == m.subject[j]);
        } else if a < j < b {
            assert(all[j] == m.from[j - a - 1]);
        } else if j > b {
            assert(all[j] == m.body[j - b - 1]);
        }
    }
    assert(is_ascii_chars(all));
    let low = ascii_lower(all);
    let at = if occurs(ascii_lower(m.subject), key, i) {
        i
    } else if occurs(ascii_lower(m.from), key, i) {
        a + 1 + i
    } else {
        b + 1 + i
    };
    if occurs(ascii_lower(m.subject), key, i) {
        assert(low.subrange(at, at + key.len()) =~= ascii_lower(m.subject).subrange(
            i,
            i + key.len(),
        ));
    } else if occurs(ascii_lower(m.from), key, i) {
        assert(low.subrange(at, at + key.len()) =~= ascii_lower(m.from).subrange(
            i,
            i + key.len(),
        ));
    } else {
        assert(low.subrange(at, at + key.len()) =~= ascii_lower(m.body).subrange(
            i,
            i + key.len(),
        ));
    }
    assert(occurs(low, key, at));
    assert(lowercase_all(keywords)[k] == key);
    assert(any_within(low, lowercase_all(keywords)));
}

/// A mail is searched for a code where a keyword stands in what is searched.
proof fn lemma_keywords_decide(m: MailView, keywords: Seq<Seq<char>>, all: Seq<char>)
    requires
        searched_text(m) == all,
    ensures
        code_in(m, keywords) == (if exists|k: int, i: int|
            0 <= k < keywords.len() && #[trigger] occurs(
                lower_case(all),
                lower_case(keywords[k]),
                i,
            ) {
            longest_code(all, 4, 6)
        } else {
            None
        }),
{
    let low = lower_case(all);
    let keys = lowercase_all(keywords);
    if any_within(low, keys) {
        let k = choose|k: int| 0 <= k < keys.len() && within(low, #[trigger] keys[k]);
        let i = choose|i: int| occurs(low, keys[k], i);
        assert(occurs(low, lower_case(keywords[k]), i));
    }
    if exists|k: int, i: int|
        0 <= k < keywords.len() && #[trigger] occurs(low, lower_case(keywords[k]), i) {
        let (k, i) = choose|k: int, i: int|
            0 <= k < keywords.len() && #[trigger] occurs(low, lower_case(keywords[k]), i);
        assert(keys[k] == lower_case(keywords[k]));
        assert(within(low, keys[k]));
    }
}

/// Whatever the writing, a mail is searched for a code exactly where the lower-case form of one of
/// the keywords stands in the lower-case form of its subject, sender and body, line by line.
pub proof fn keywords_decide(m: MailView, keywords: Seq<Seq<char>>)
    requires
        m.subject.len() > 0,
    ensures
        ({
            let all = m.subject + seq!['\n'] + m.from + seq!['\n'] + m.body;
            code_in(m, keywords) == (if exists|k: int, i: int|
                0 <= k < keywords.len() && #[trigger] occurs(
                    lower_case(all),
                    lower_case(keywords[k]),
                    i,
                ) {
                longest_code(all, 4, 6)
            } else {
                None
            })
        }),
{
    lemma_searched(m);
    lemma_keywords_decide(
        m,
        keywords,
        m.subject + seq!['\n'] + m.from + seq!['\n'] + m.body,
    );
}

/// A mail without a subject is searched like any other, under the subject that is shown for it.
pub proof fn mails_without_a_subject_are_searched(m: MailView, keywords: Seq<Seq<char>>)
    requires
        m.subject.len() == 0,
    ensures
        code_in(m, keywords) == code_in(
            (MailView { subject: "验证码请查收"@, ..m }),
            keywords,
        ),
{
    reveal_strlit("验证码请查收");
}

/// A mail with a keyword and with six digits in a row in its body, no more and no fewer, has a code
/// of six digits: it is notified, to be pasted and not to be submitted.
pub proof fn six_digits_in_a_body_are_found(
    m: MailView,
    keywords: Seq<Seq<char>>,
    k: int,
    i: int,
    at: int,
    label: Seq<char>,
    show_always: bool,
)
    requires
        m.subject.len() > 0,
        0 <= k < keywords.len(),
        occurs(
            lower_case(m.subject + seq!['\n'] + m.from + seq!['\n'] + m.body),
            lower_case(keywords[k]),
            i,
        ),
        run_at(m.body, at, 6),
    ensures
        code_in(m, keywords) matches Some(c) && c.len() == 6 && exists|j: int|
            #[trigger] run_at(m.subject + seq!['\n'] + m.from + seq!['\n'] + m.body, j, 6) && c
                == (m.subject + seq!['\n'] + m.from + seq!['\n'] + m.body).subrange(j, j + 6),
        mail_notice(m, label, show_always, code_in(m, keywords)) matches Some(n) && n is Notify
            && Some(n->body) == code_in(m, keywords) && n->auto_paste && !n->submit,
{
    let all = m.subject + seq!['\n'] + m.from + seq!['\n'] + m.body;
    keywords_decide(m, keywords);
    let off = all.len() - m.body.len();
    assert forall|j: int| off + at <= j < off + at + 6 implies is_digit(#[trigger] all[j]) by {
        assert(all[j] == m.body[j - off]);
    }
    if at > 0 {
        assert(all[off + at - 1] == m.body[at - 1]);
    } else {
        assert(all[off - 1] == '\n');
    }
    if at + 6 < m.body.len() {
        assert(all[off + at + 6] == m.body[at + 6]);
    }
    assert(run_at(all, off + at, 6));
    code_is_first_longest_run(all, 4, 6);
    let c = longest_code(all, 4, 6)->0;
    let j = choose|j: int|
        #[trigger] best_run(all, j, c.len() as int, 6) && c == all.subrange(j, j + c.len());
    assert(run_at(all, j, 6));
}

/// The code of a mail is found wherever in it it stands, among any words.
pub proof fn the_code_of_a_mail_is_found(
    m: MailView,
    keywords: Seq<Seq<char>>,
    k: int,
    i: int,
    before: Seq<char>,
    code: Seq<char>,
    after: Seq<char>,
)
    requires
        m.subject.len() > 0,
        0 <= k < keywords.len(),
        occurs(
            lower_case(m.subject + seq!['\n'] + m.from + seq!['\n'] + m.body),
            lower_case(keywords[k]),
            i,
        ),
        m.subject + seq!['\n'] + m.from + seq!['\n'] + m.body == before + code + after,
        4 <= code.len() <= 6,
        forall|j: int| 0 <= j < code.len() ==> is_digit(#[trigger] code[j]),
        forall|j: int| 0 <= j < before.len() ==> !is_digit(#[trigger] before[j]),
        forall|j: int| 0 <= j < after.len() ==> !is_digit(#[trigger] after[j]),
    ensures
        code_in(m, keywords) == Some(code),
{
    keywords_decide(m, keywords);
    a_lone_code_is_found(before, code, after, 4, 6);
}

/// What is notified of a mail names the account and the subject, and what is logged of it holds
/// its subject, its sender and its body, and the code where there is one.
pub proof fn notices_name_their_mail(
    m: MailView,
    label: Seq<char>,
    show_always: bool,
    code: Option<Seq<char>>,
)
    requires
        m.subject.len() > 0,
    ensures
        mail_notice(m, label, show_always, code) matches Some(n) ==> n->title == "📧 新邮件 ("@
            + label + ")｜"@ + m.subject,
        within(mail_log(m, label, code), label),
        within(mail_log(m, label, code), m.subject),
        within(mail_log(m, label, code), m.from),
        within(mail_log(m, label, code), m.body),
        code matches Some(c) ==> within(mail_log(m, label, code), c),
{
    let log = mail_log(m, label, code);
    reveal_strlit("📨 [");
    reveal_strlit("] 新邮件: [");
    reveal_strlit(" | ");
    reveal_strlit("] :");
    reveal_strlit("\n");
    let a = "📨 ["@.len() as int;
    let b = a + label.len() + "] 新邮件: ["@.len();
    let c = b + m.subject.len() + " | "@.len();
    let d = c + m.from.len() + "] :"@.len();
    assert(log.subrange(a, a + label.len()) =~= label);
    assert(occurs(log, label, a));
    assert(log.subrange(b, b + m.subject.len()) =~= m.subject);
    assert(occurs(log, m.subject, b));
    assert(log.subrange(c, c + m.from.len()) =~= m.from);
    assert(occurs(log, m.from, c));
    if m.body.len() == 0 {
        assert(log.subrange(0, 0) =~= m.body);
        assert(occurs(log, m.body, 0));
    } else {
        assert(log.subrange(d + 1, d + 1 + m.body.len()) =~= m.body);
        assert(occurs(log, m.body, d + 1));
    }
    if let Some(x) = code {
        let e = log.len() - x.len();
        assert(log.subrange(e, e + x.len()) =~= x);
        assert(occurs(log, x, e));
    }
}

/// A wait lasts for the interval of the moment, on whichever kind of server: one that pushes is
/// listened to for so long, and any other is left alone for so long.
pub proof fn a_wait_lasts_for_the_interval(s: Reconnect)
    ensures
        match s.watching() {
            Watch::Push(n) => n == s.interval && s.supports_idle == Some(true),
            Watch::Poll(n) => n == s.interval && s.supports_idle != Some(true),
        },
{
}

} // verus!
