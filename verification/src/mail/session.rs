//! One session with a mail server, from the greeting to the failure that ends it.
//!
//! The session says what to do next, and is told what came of it. It logs in, opens the mailbox,
//! looks at the last message in case it has just come, and from then on waits, lists and fetches
//! what is new, for as long as the connection holds.
use std::collections::HashSet;
use vstd::prelude::*;

use crate::mail::config::{Account, AccountView};
use crate::mail::imap_client::{
    can_idle, capabilities_in, check_greeting, date_from, greeted, in_order, login_failed, outcome,
    search_hits, ErrorView, ImapClient, ImapError,
};
use crate::mail::imap_lines::line_text;
use crate::mail::listener::{
    code_in, is_stale, latest, mail_log, mail_notice, new_uids, notify_message, seen_after,
    shown_label, stale, unseen, Reconnect, Watch,
};
use crate::mail::message::{mail_of, parse};
use crate::sms::{opt_sms, SmsMessage, SmsView};
use crate::text::texts;

verus! {

// ───────────────────────── what is done ─────────────────────────

/// What is to be done next.
pub enum Task {
    Login,
    Capability,
    SendId,
    Select,
    Search,
    FetchDate(u32),
    Fetch(u32),
    Wait(Watch),
}

/// What came of it.
pub enum Event {
    /// The first line that the server sent.
    Greeting(Vec<u8>),
    /// The reply to a command: whether it was carried out, and its lines of data.
    Reply { ok: bool, untagged: Vec<String> },
    /// A message that was fetched; `None` where it is gone.
    Message(Option<Vec<u8>>),
    /// The wait is over.
    Waited,
    /// The connection failed, or a fetch was refused.
    Failed(ImapError),
}

/// What came of it.
#[verifier::ext_equal]
pub enum EventView {
    Greeting(Seq<u8>),
    Reply { ok: bool, data: Seq<Seq<char>> },
    Message(Option<Seq<u8>>),
    Waited,
    Failed(ErrorView),
}

impl View for Event {
    type V = EventView;

    open spec fn view(&self) -> EventView {
        match self {
            Event::Greeting(raw) => EventView::Greeting(raw@),
            Event::Reply { ok, untagged } => EventView::Reply {
                ok: *ok,
                data: texts(untagged@),
            },
            Event::Message(Some(raw)) => EventView::Message(Some(raw@)),
            Event::Message(None) => EventView::Message(None),
            Event::Waited => EventView::Waited,
            Event::Failed(e) => EventView::Failed(e@),
        }
    }
}

/// Where a session stands: what it is waiting to hear of.
pub enum Phase {
    Greeting,
    LoggingIn,
    Asking,
    Naming,
    Opening,
    Listing,
    /// The date of the last message.
    Dating(u32),
    /// The last message.
    FetchingLatest,
    Watching,
    ListingAgain,
    /// The message `new[next]`, where `current` are all messages.
    FetchingNew { current: Vec<u32>, new: Vec<u32>, next: usize },
}

/// Where a session stands.
#[verifier::ext_equal]
pub enum PhaseView {
    Greeting,
    LoggingIn,
    Asking,
    Naming,
    Opening,
    Listing,
    Dating(u32),
    FetchingLatest,
    Watching,
    ListingAgain,
    FetchingNew { current: Seq<u32>, new: Seq<u32>, next: int },
}

impl View for Phase {
    type V = PhaseView;

    open spec fn view(&self) -> PhaseView {
        match self {
            Phase::Greeting => PhaseView::Greeting,
            Phase::LoggingIn => PhaseView::LoggingIn,
            Phase::Asking => PhaseView::Asking,
            Phase::Naming => PhaseView::Naming,
            Phase::Opening => PhaseView::Opening,
            Phase::Listing => PhaseView::Listing,
            Phase::Dating(u) => PhaseView::Dating(*u),
            Phase::FetchingLatest => PhaseView::FetchingLatest,
            Phase::Watching => PhaseView::Watching,
            Phase::ListingAgain => PhaseView::ListingAgain,
            Phase::FetchingNew { current, new, next } => PhaseView::FetchingNew {
                current: current@,
                new: new@,
                next: *next as int,
            },
        }
    }
}

/// What the sessions with one account share.
pub struct Setup {
    pub account: Account,
    pub keywords: Vec<String>,
    pub notify_unmatched: bool,
}

/// What the sessions with one account share.
#[verifier::ext_equal]
pub struct SetupView {
    pub account: AccountView,
    pub keywords: Seq<Seq<char>>,
    pub notify_unmatched: bool,
}

impl View for Setup {
    type V = SetupView;

    open spec fn view(&self) -> SetupView {
        SetupView {
            account: self.account@,
            keywords: texts(self.keywords@),
            notify_unmatched: self.notify_unmatched,
        }
    }
}

/// A session.
pub struct Session {
    pub client: ImapClient,
    pub phase: Phase,
    pub seen: HashSet<u32>,
}

/// The state of a session, with what outlives it.
#[verifier::ext_equal]
pub struct SessionView {
    pub phase: PhaseView,
    pub capabilities: Seq<Seq<char>>,
    pub seen: Set<u32>,
    pub reconnect: Reconnect,
}

/// What a session goes by, with what outlives it. The tags and the bytes that its client keeps
/// are not among that.
pub open spec fn session_view(s: Session, r: Reconnect) -> SessionView {
    SessionView {
        phase: s.phase@,
        capabilities: texts(s.client.capabilities@),
        seen: s.seen@,
        reconnect: r,
    }
}

/// What follows an event.
pub struct Step {
    /// What is to be done next, or the error that ends the session.
    pub next: Result<Task, ImapError>,
    /// The interval to save.
    pub save: Option<u64>,
    /// What is logged of a message, and what is notified.
    pub notice: Option<(String, Option<SmsMessage>)>,
}

/// What follows an event.
#[verifier::ext_equal]
pub struct StepView {
    pub next: Result<Task, ErrorView>,
    pub save: Option<u64>,
    pub notice: Option<(Seq<char>, Option<SmsView>)>,
}

impl View for Step {
    type V = StepView;

    open spec fn view(&self) -> StepView {
        StepView {
            next: outcome(self.next),
            save: self.save,
            notice: match self.notice {
                Some((log, m)) => Some((log@, opt_sms(m))),
                None => None,
            },
        }
    }
}

// ───────────────────────── the rules ─────────────────────────

/// The session goes on in `phase`, and `task` is to be done.
pub open spec fn go_on(s: SessionView, phase: PhaseView, task: Task) -> (SessionView, StepView) {
    (SessionView { phase, ..s }, StepView { next: Ok(task), save: None, notice: None })
}

/// The session ends.
pub open spec fn give_up(s: SessionView, e: ErrorView) -> (SessionView, StepView) {
    (s, StepView { next: Err(e), save: None, notice: None })
}

/// The session waits.
pub open spec fn wait(s: SessionView) -> (SessionView, StepView) {
    go_on(s, PhaseView::Watching, Task::Wait(s.reconnect.watching()))
}

/// The next new message is fetched; after the last one, all messages count as seen, and the
/// session waits.
pub open spec fn fetch_next(s: SessionView, current: Seq<u32>, new: Seq<u32>, next: int) -> (
    SessionView,
    StepView,
) {
    if next < new.len() {
        go_on(s, PhaseView::FetchingNew { current, new, next }, Task::Fetch(new[next]))
    } else {
        wait((SessionView { seen: current.to_set(), ..s }))
    }
}

/// What is said of the message `raw`.
pub open spec fn notice_of(setup: SetupView, raw: Seq<u8>, show_always: bool) -> (
    Seq<char>,
    Option<SmsView>,
) {
    let m = mail_of(raw);
    let label = shown_label(setup.account);
    let code = code_in(m, setup.keywords);
    (mail_log(m, label, code), mail_notice(m, label, show_always, code))
}

/// The same, with what is said of the message `raw`, where there is one.
pub open spec fn saying(
    r: (SessionView, StepView),
    setup: SetupView,
    raw: Option<Seq<u8>>,
    show_always: bool,
) -> (SessionView, StepView) {
    match raw {
        Some(b) => (r.0, StepView { notice: Some(notice_of(setup, b, show_always)), ..r.1 }),
        None => r,
    }
}

/// The event is one that can come in that phase.
pub open spec fn expected(phase: PhaseView, e: EventView) -> bool {
    match e {
        EventView::Failed(_) => true,
        EventView::Greeting(_) => phase is Greeting,
        EventView::Waited => phase is Watching,
        EventView::Message(_) => phase is FetchingLatest || phase is FetchingNew,
        EventView::Reply { ok, data } => !(phase is Greeting || phase is Watching || phase
            is FetchingLatest || phase is FetchingNew),
    }
}

/// What follows the event `e` at the time `now`.
///
/// That the server is told who is asking, the date of the last message, and single messages are
/// not worth a session: where they fail, it goes on without.
pub open spec fn after_event(s: SessionView, setup: SetupView, e: EventView, now: int) -> (
    SessionView,
    StepView,
) {
    match (s.phase, e) {
        (PhaseView::Greeting, EventView::Greeting(raw)) => match greeted(line_text(raw)) {
            Ok(_) => go_on(s, PhaseView::LoggingIn, Task::Login),
            Err(x) => give_up(s, x),
        },
        (PhaseView::LoggingIn, EventView::Reply { ok, data }) => if ok {
            go_on(s, PhaseView::Asking, Task::Capability)
        } else {
            give_up(s, ErrorView::Auth(login_failed()))
        },
        (PhaseView::Asking, EventView::Reply { ok, data }) => go_on(
            SessionView {
                capabilities: if ok {
                    capabilities_in(data, s.capabilities)
                } else {
                    s.capabilities
                },
                ..s
            },
            PhaseView::Naming,
            Task::SendId,
        ),
        (PhaseView::Naming, _) => go_on(s, PhaseView::Opening, Task::Select),
        (PhaseView::Opening, EventView::Reply { ok, data }) => if ok {
            let r = s.reconnect;
            let opened = SessionView {
                reconnect: Reconnect { interval: r.base, fail_count: 0, ..r },
                ..s
            };
            let (next, step) = go_on(opened, PhaseView::Listing, Task::Search);
            (
                next,
                StepView {
                    save: if r.interval != r.base {
                        Some(r.base)
                    } else {
                        None
                    },
                    ..step
                },
            )
        } else {
            give_up(s, ErrorView::Protocol("select INBOX 失败"@))
        },
        (PhaseView::Listing, EventView::Reply { ok, data }) => if ok {
            let uids = in_order(search_hits(data));
            let listed = SessionView {
                seen: uids.to_set(),
                reconnect: Reconnect {
                    supports_idle: Some(can_idle(s.capabilities)),
                    ..s.reconnect
                },
                ..s
            };
            if uids.len() == 0 {
                wait(listed)
            } else {
                go_on(listed, PhaseView::Dating(uids.last()), Task::FetchDate(uids.last()))
            }
        } else {
            give_up(s, ErrorView::Protocol("UID SEARCH 失败"@))
        },
        (PhaseView::Dating(u), EventView::Reply { ok, data }) => if ok && stale(
            date_from(data, 0),
            now,
        ) {
            wait(s)
        } else {
            go_on(s, PhaseView::FetchingLatest, Task::Fetch(u))
        },
        (PhaseView::Dating(u), _) => go_on(s, PhaseView::FetchingLatest, Task::Fetch(u)),
        (PhaseView::FetchingLatest, EventView::Message(raw)) => saying(wait(s), setup, raw, false),
        (PhaseView::FetchingLatest, _) => wait(s),
        (PhaseView::Watching, EventView::Waited) => go_on(s, PhaseView::ListingAgain, Task::Search),
        (PhaseView::ListingAgain, EventView::Reply { ok, data }) => if ok {
            let current = in_order(search_hits(data));
            fetch_next(s, current, in_order(unseen(current, s.seen)), 0)
        } else {
            give_up(s, ErrorView::Protocol("UID SEARCH 失败"@))
        },
        (PhaseView::FetchingNew { current, new, next }, EventView::Message(raw)) => saying(
            fetch_next(s, current, new, next + 1),
            setup,
            raw,
            setup.notify_unmatched,
        ),
        (PhaseView::FetchingNew { current, new, next }, _) => fetch_next(
            s,
            current,
            new,
            next + 1,
        ),
        (_, EventView::Failed(x)) => give_up(s, x),
        _ => give_up(s, ErrorView::Protocol(seq![])),
    }
}

// ───────────────────────── the session ─────────────────────────

/// The step to `task`.
fn step_to(task: Task) -> (r: Step)
    ensures
        r@ == (StepView { next: Ok(task), save: None, notice: None }),
{
    Step { next: Ok(task), save: None, notice: None }
}

/// The step that ends the session.
fn step_out(e: ImapError) -> (r: Step)
    ensures
        r@ == (StepView { next: Err(e@), save: None, notice: None }),
{
    Step { next: Err(e), save: None, notice: None }
}

/// What is said of a message that was fetched, where there is one.
fn notice(setup: &Setup, raw: &Option<Vec<u8>>, show_always: bool) -> (r: Option<
    (String, Option<SmsMessage>),
>)
    ensures
        match (*raw, r) {
            (Some(b), Some((log, m))) => (log@, opt_sms(m)) == notice_of(
                setup@,
                b@,
                show_always,
            ),
            (None, None) => true,
            _ => false,
        },
{
    match raw {
        Some(b) => Some(
            notify_message(
                &parse(b.as_slice()),
                &setup.account,
                show_always,
                setup.keywords.as_slice(),
            ),
        ),
        None => None,
    }
}

impl Session {
    /// The message that is being fetched is one of the new ones.
    pub open spec fn wf(self) -> bool {
        self.phase matches Phase::FetchingNew { current, new, next } ==> next < new.len()
    }

    /// A session that waits for the greeting.
    pub fn new() -> (r: Session)
        ensures
            r.wf(),
            r.phase is Greeting,
            r.client.tag == 0,
            r.client.buf@.len() == 0,
            r.client.capabilities@.len() == 0,
            r.seen@ == Set::<u32>::empty(),
    {
        Session { client: ImapClient::new(), phase: Phase::Greeting, seen: HashSet::new() }
    }

    /// Whether the event is one that can come now.
    pub fn expects(&self, event: &Event) -> (r: bool)
        ensures
            r == expected(self.phase@, event@),
    {
        match event {
            Event::Failed(_) => true,
            Event::Greeting(_) => match self.phase {
                Phase::Greeting => true,
                _ => false,
            },
            Event::Waited => match self.phase {
                Phase::Watching => true,
                _ => false,
            },
            Event::Message(_) => match self.phase {
                Phase::FetchingLatest => true,
                Phase::FetchingNew { .. } => true,
                _ => false,
            },
            Event::Reply { .. } => match self.phase {
                Phase::Greeting => false,
                Phase::Watching => false,
                Phase::FetchingLatest => false,
                Phase::FetchingNew { .. } => false,
                _ => true,
            },
        }
    }

    /// The session waits.
    fn wait(&mut self, reconnect: &Reconnect) -> (r: Step)
        ensures
            (session_view(*final(self), *reconnect), r@) == wait(
                session_view(*old(self), *reconnect),
            ),
            final(self).client == old(self).client,
            final(self).wf(),
    {
        self.phase = Phase::Watching;
        step_to(Task::Wait(reconnect.watch()))
    }

    /// The next new message is fetched, or the session waits.
    fn fetch_next(
        &mut self,
        reconnect: &Reconnect,
        current: Vec<u32>,
        new: Vec<u32>,
        next: usize,
    ) -> (r: Step)
        ensures
            (session_view(*final(self), *reconnect), r@) == fetch_next(
                session_view(*old(self), *reconnect),
                current@,
                new@,
                next as int,
            ),
            final(self).client == old(self).client,
            final(self).wf(),
    {
        if next < new.len() {
            let uid: u32 = new[next];
            self.phase = Phase::FetchingNew { current, new, next };
            step_to(Task::Fetch(uid))
        } else {
            self.seen = seen_after(current.as_slice());
            self.wait(reconnect)
        }
    }

    /// Where the connection has failed, or a fetch was refused.
    fn fail(&mut self, reconnect: &Reconnect, e: ImapError) -> (r: Step)
        requires
            old(self).wf(),
        ensures
            forall|setup: SetupView, now: int|
                (session_view(*final(self), *reconnect), r@) == #[trigger] after_event(
                    session_view(*old(self), *reconnect),
                    setup,
                    EventView::Failed(e@),
                    now,
                ),
            final(self).client == old(self).client,
            final(self).wf(),
    {
        let mut phase: Phase = Phase::Watching;
        std::mem::swap(&mut phase, &mut self.phase);
        match phase {
            Phase::Naming => {
                self.phase = Phase::Opening;
                step_to(Task::Select)
            },
            Phase::Dating(u) => {
                self.phase = Phase::FetchingLatest;
                step_to(Task::Fetch(u))
            },
            Phase::FetchingLatest => self.wait(reconnect),
            Phase::FetchingNew { current, new, next } => self.fetch_next(
                reconnect,
                current,
                new,
                next + 1,
            ),
            other => {
                self.phase = other;
                step_out(e)
            },
        }
    }

    /// Where a command has been replied to.
    fn replied(
        &mut self,
        reconnect: &mut Reconnect,
        ok: bool,
        untagged: Vec<String>,
        now: i64,
    ) -> (r: Step)
        requires
            0 <= now <= 8_000_000_000_000_000_000,
            old(reconnect).wf(),
            expected(old(self).phase@, EventView::Reply { ok, data: texts(untagged@) }),
        ensures
            final(reconnect).wf(),
            forall|setup: SetupView|
                (session_view(*final(self), *final(reconnect)), r@) == #[trigger] after_event(
                    session_view(*old(self), *old(reconnect)),
                    setup,
                    EventView::Reply { ok, data: texts(untagged@) },
                    now as int,
                ),
            final(self).client.tag == old(self).client.tag,
            final(self).client.buf == old(self).client.buf,
            final(self).wf(),
    {
        match self.phase {
            Phase::LoggingIn => {
                match ImapClient::logged_in(ok) {
                    Ok(()) => {
                        self.phase = Phase::Asking;
                        step_to(Task::Capability)
                    },
                    Err(e) => step_out(e),
                }
            },
            Phase::Asking => {
                self.client.note_capabilities(ok, untagged.as_slice());
                self.phase = Phase::Naming;
                step_to(Task::SendId)
            },
            Phase::Naming => {
                self.phase = Phase::Opening;
                step_to(Task::Select)
            },
            Phase::Opening => {
                match ImapClient::selected(ok) {
                    Ok(()) => {
                        let save: Option<u64> = if reconnect.connected() {
                            Some(reconnect.base)
                        } else {
                            None
                        };
                        self.phase = Phase::Listing;
                        Step { next: Ok(Task::Search), save, notice: None }
                    },
                    Err(e) => step_out(e),
                }
            },
            Phase::Listing => {
                match ImapClient::found_uids(ok, untagged.as_slice()) {
                    Ok(uids) => {
                        self.seen = seen_after(uids.as_slice());
                        reconnect.session_started(self.client.supports_idle());
                        match latest(uids.as_slice()) {
                            Some(u) => {
                                self.phase = Phase::Dating(u);
                                step_to(Task::FetchDate(u))
                            },
                            None => self.wait(reconnect),
                        }
                    },
                    Err(e) => step_out(e),
                }
            },
            Phase::Dating(u) => {
                let date: Option<String> = ImapClient::found_date(ok, untagged.as_slice());
                let old_one: bool = match &date {
                    Some(d) => is_stale(Some(d.as_str()), now),
                    None => is_stale(None, now),
                };
                if old_one {
                    self.wait(reconnect)
                } else {
                    self.phase = Phase::FetchingLatest;
                    step_to(Task::Fetch(u))
                }
            },
            _ => {
                match ImapClient::found_uids(ok, untagged.as_slice()) {
                    Ok(current) => {
                        let new: Vec<u32> = new_uids(current.as_slice(), &self.seen);
                        self.fetch_next(reconnect, current, new, 0)
                    },
                    Err(e) => step_out(e),
                }
            },
        }
    }

    /// Where a message has been fetched.
    fn fetched(
        &mut self,
        reconnect: &Reconnect,
        setup: &Setup,
        raw: Option<Vec<u8>>,
    ) -> (r: Step)
        requires
            old(self).phase is FetchingLatest || old(self).phase is FetchingNew,
            old(self).wf(),
        ensures
            forall|now: int|
                (session_view(*final(self), *reconnect), r@) == #[trigger] after_event(
                    session_view(*old(self), *reconnect),
                    setup@,
                    Event::Message(raw)@,
                    now,
                ),
            final(self).client == old(self).client,
            final(self).wf(),
    {
        let mut phase: Phase = Phase::Watching;
        std::mem::swap(&mut phase, &mut self.phase);
        match phase {
            Phase::FetchingNew { current, new, next } => {
                let said: Option<(String, Option<SmsMessage>)> = notice(
                    setup,
                    &raw,
                    setup.notify_unmatched,
                );
                let step: Step = self.fetch_next(reconnect, current, new, next + 1);
                Step { notice: said, ..step }
            },
            _ => {
                let said: Option<(String, Option<SmsMessage>)> = notice(setup, &raw, false);
                let step: Step = self.wait(reconnect);
                Step { notice: said, ..step }
            },
        }
    }

    /// Goes on after an event. `now` is in seconds since 1970.
    pub fn step(
        &mut self,
        reconnect: &mut Reconnect,
        setup: &Setup,
        event: Event,
        now: i64,
    ) -> (r: Step)
        requires
            0 <= now <= 8_000_000_000_000_000_000,
            old(reconnect).wf(),
            expected(old(self).phase@, event@),
            old(self).wf(),
        ensures
            final(reconnect).wf(),
            (session_view(*final(self), *final(reconnect)), r@) == after_event(
                session_view(*old(self), *old(reconnect)),
                setup@,
                event@,
                now as int,
            ),
            final(self).client.tag == old(self).client.tag,
            final(self).client.buf == old(self).client.buf,
            final(self).wf(),
    {
        match event {
            Event::Greeting(raw) => {
                match check_greeting(raw.as_slice()) {
                    Ok(()) => {
                        self.phase = Phase::LoggingIn;
                        step_to(Task::Login)
                    },
                    Err(e) => step_out(e),
                }
            },
            Event::Reply { ok, untagged } => self.replied(reconnect, ok, untagged, now),
            Event::Message(raw) => self.fetched(reconnect, setup, raw),
            Event::Waited => {
                self.phase = Phase::ListingAgain;
                step_to(Task::Search)
            },
            Event::Failed(e) => self.fail(reconnect, e),
        }
    }
}

// ───────────────────────── laws ─────────────────────────

/// An open mailbox ends all trouble: failures are forgotten, the interval is the account's own
/// again, and it is saved where that has changed it.
pub proof fn an_open_mailbox_ends_the_trouble(
    s: SessionView,
    setup: SetupView,
    data: Seq<Seq<char>>,
    now: int,
)
    requires
        s.phase is Opening,
    ensures
        ({
            let (t, step) = after_event(s, setup, EventView::Reply { ok: true, data }, now);
            &&& t.reconnect.fail_count == 0
            &&& t.reconnect.interval == s.reconnect.base
            &&& step.save == (if s.reconnect.interval != s.reconnect.base {
                Some(s.reconnect.base)
            } else {
                None
            })
            &&& step.next == Ok::<Task, ErrorView>(Task::Search)
        }),
{
}

/// The mailbox is listed only once it is open: right after that, and after every wait.
pub proof fn only_an_open_mailbox_is_listed(s: SessionView, setup: SetupView, e: EventView, now: int)
    ensures
        after_event(s, setup, e, now).1.next == Ok::<Task, ErrorView>(Task::Search) ==> {
            ||| s.phase is Opening && (e matches EventView::Reply { ok, data } && ok)
            ||| s.phase is Watching && e is Waited
        },
{
}

/// A connection that fails ends the session with that error, but for the times at which the
/// session can do without what it asked for.
pub proof fn a_failure_ends_the_session(s: SessionView, setup: SetupView, e: ErrorView, now: int)
    ensures
        s.phase is Naming || s.phase is Dating || s.phase is FetchingLatest || s.phase
            is FetchingNew || after_event(s, setup, EventView::Failed(e), now) == give_up(s, e),
        s.phase is Naming || s.phase is Dating || s.phase is FetchingLatest || s.phase
            is FetchingNew ==> after_event(s, setup, EventView::Failed(e), now).1.next is Ok,
{
}

/// What a session has come to after one fetch after the other, whatever came of them.
pub open spec fn after_fetches(
    setup: SetupView,
    first: (SessionView, StepView),
    events: Seq<EventView>,
    now: int,
) -> (SessionView, StepView)
    decreases events.len(),
{
    if events.len() == 0 {
        first
    } else {
        after_event(
            after_fetches(setup, first, events.drop_last(), now).0,
            setup,
            events.last(),
            now,
        )
    }
}

/// The new messages are fetched one after the other, in ascending order, each once; then all that
/// were listed count as seen, and the session waits. What comes of a fetch changes nothing about
/// the others.
pub proof fn new_messages_are_fetched_in_order(
    s: SessionView,
    setup: SetupView,
    data: Seq<Seq<char>>,
    events: Seq<EventView>,
    now: int,
)
    requires
        s.phase is ListingAgain,
        forall|i: int|
            0 <= i < events.len() ==> #[trigger] events[i] is Message || events[i] is Failed,
        events.len() <= in_order(unseen(in_order(search_hits(data)), s.seen)).len(),
    ensures
        ({
            let current = in_order(search_hits(data));
            let new = in_order(unseen(current, s.seen));
            let first = after_event(s, setup, EventView::Reply { ok: true, data }, now);
            let (t, step) = after_fetches(setup, first, events, now);
            if events.len() < new.len() {
                &&& step.next == Ok::<Task, ErrorView>(Task::Fetch(new[events.len() as int]))
                &&& t.phase == (PhaseView::FetchingNew {
                    current,
                    new,
                    next: events.len() as int,
                })
                &&& t.reconnect == s.reconnect
            } else {
                &&& step.next == Ok::<Task, ErrorView>(Task::Wait(s.reconnect.watching()))
                &&& t.phase is Watching
                &&& t.seen == current.to_set()
            }
        }),
    decreases events.len(),
{
    if events.len() > 0 {
        let front = events.drop_last();
        assert forall|i: int| 0 <= i < front.len() implies #[trigger] front[i] is Message
            || front[i] is Failed by {
            assert(front[i] == events[i]);
        }
        new_messages_are_fetched_in_order(s, setup, data, front, now);
        assert(events[events.len() - 1] is Message || events[events.len() - 1] is Failed);
    }
}

} // verus!
