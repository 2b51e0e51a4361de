//! Pushing the log to someone who follows it, and noticing when they are gone.
//!
//! A peer that vanishes without a word would keep its connection for ever. So it is asked for a
//! sign of life now and then, and dropped where it gave none since it was last asked.
use vstd::prelude::*;

use crate::logs::{push_form, pushed_line, LogCenter};
use crate::text::{copy_string, texts};

verus! {

/// How long to wait before a peer is asked for a sign of life, in milliseconds.
pub const HEARTBEAT_MS: u64 = 15000;

/// The lines that are sent in one go, at most, before the peer is listened to.
pub const BATCH: usize = 65;

/// The state of a connection. Times are in milliseconds.
pub struct Pusher {
    pub last_ping: u64,
    pub awaiting_pong: bool,
}

/// What is due.
pub enum Beat {
    Nothing,
    /// Ask for a sign of life.
    Ping,
    /// The peer is gone.
    Dead,
}

/// What came from the peer.
pub enum Heard {
    /// A text, or bytes.
    Data,
    Ping(Vec<u8>),
    Pong,
    Close,
    /// Nothing, in the time that was given.
    Silence,
    /// The connection failed.
    Failure,
}

/// What to do about it.
pub enum PushStep {
    GoOn,
    /// Send this text, and go on.
    SendText(&'static str),
    /// Send this sign of life, and go on.
    SendPong(Vec<u8>),
    /// Close the connection, and stop.
    Close,
    Stop,
}

/// What is due at `now`, and the state after that.
pub open spec fn beat_at(p: Pusher, now: u64) -> (Pusher, Beat) {
    if now < p.last_ping + HEARTBEAT_MS {
        (p, Beat::Nothing)
    } else if p.awaiting_pong {
        (p, Beat::Dead)
    } else {
        (Pusher { last_ping: now, awaiting_pong: true }, Beat::Ping)
    }
}

/// The state after something came from the peer.
pub open spec fn after_hearing(p: Pusher, h: Heard) -> Pusher {
    if h is Pong {
        Pusher { awaiting_pong: false, ..p }
    } else {
        p
    }
}

/// Whether one more line may be sent in this go, after so many.
pub fn sends_more(sent: usize) -> (r: bool)
    ensures
        r == (sent < BATCH),
{
    sent < BATCH
}

impl Pusher {
    /// A connection that starts at `now`.
    pub fn new(now: u64) -> (r: Pusher)
        ensures
            r.last_ping == now,
            !r.awaiting_pong,
    {
        Pusher { last_ping: now, awaiting_pong: false }
    }

    /// What is due at `now`.
    pub fn beat(&mut self, now: u64) -> (r: Beat)
        ensures
            (*final(self), r) == beat_at(*old(self), now),
    {
        if now < self.last_ping || now - self.last_ping < HEARTBEAT_MS {
            return Beat::Nothing;
        }
        if self.awaiting_pong {
            return Beat::Dead;
        }
        self.last_ping = now;
        self.awaiting_pong = true;
        Beat::Ping
    }

    /// What to do about what came from the peer.
    pub fn hear(&mut self, heard: Heard) -> (r: PushStep)
        ensures
            *final(self) == after_hearing(*old(self), heard),
            match heard {
                Heard::Data => r matches PushStep::SendText(s) && s@ == "ok"@,
                Heard::Ping(payload) => r == PushStep::SendPong(payload),
                Heard::Pong => r == PushStep::GoOn,
                Heard::Close => r == PushStep::Close,
                Heard::Silence => r == PushStep::GoOn,
                Heard::Failure => r == PushStep::Stop,
            },
    {
        match heard {
            Heard::Data => PushStep::SendText("ok"),
            Heard::Ping(payload) => PushStep::SendPong(payload),
            Heard::Pong => {
                self.awaiting_pong = false;
                PushStep::GoOn
            },
            Heard::Close => PushStep::Close,
            Heard::Silence => PushStep::GoOn,
            Heard::Failure => PushStep::Stop,
        }
    }
}

/// What is sent to someone who starts to follow the log: all that it holds, line by line. `None`
/// where they are not let in: the log is for this machine only.
pub fn welcome(center: &LogCenter, is_loopback: bool) -> (r: Option<Vec<String>>)
    ensures
        match r {
            Some(lines) => {
                &&& is_loopback
                &&& lines@.len() == center.held().len()
                &&& forall|i: int|
                    0 <= i < lines@.len() ==> (#[trigger] lines@[i])@ == pushed_line(
                        center.held()[i],
                    )
            },
            None => !is_loopback,
        },
{
    if !is_loopback {
        return None;
    }
    let snapshot: Vec<String> = center.snapshot_logs();
    let ghost held = center.held();
    let mut out: Vec<String> = Vec::new();
    let mut i: usize = 0;
    while i < snapshot.len()
        invariant
            i <= snapshot@.len(),
            out@.len() == i,
            held == texts(snapshot@),
            forall|j: int| 0 <= j < i ==> (#[trigger] out@[j])@ == pushed_line(held[j]),
        decreases snapshot.len() - i,
    {
        assert(held[i as int] == snapshot@[i as int]@);
        out.push(push_form(snapshot[i].as_str()));
        i += 1;
    }
    Some(out)
}

/// What became of the last thing that was to be sent to someone who starts to follow the log.
#[derive(Clone, Copy)]
pub enum Outcome {
    /// It was sent, or there was nothing to send yet.
    Sent,
    Failed,
}

/// What to do next for someone who starts to follow the log.
pub enum GreetStep {
    /// Send this line.
    Send(String),
    /// They follow the log from now on.
    Register,
    /// Close the connection. They do not follow the log.
    Close,
}

/// What to do next for someone who starts to follow the log.
#[verifier::ext_equal]
pub enum GreetView {
    Send(Seq<char>),
    Register,
    Close,
}

impl View for GreetStep {
    type V = GreetView;

    open spec fn view(&self) -> GreetView {
        match self {
            GreetStep::Send(s) => GreetView::Send(s@),
            GreetStep::Register => GreetView::Register,
            GreetStep::Close => GreetView::Close,
        }
    }
}

/// How far someone who starts to follow the log has been sent what it holds.
pub struct Greeting {
    /// What is to be sent, line by line.
    pub lines: Vec<String>,
    /// How many of the lines have been handed out to be sent.
    pub sent: usize,
}

/// What to do next after `sent` of the lines, and how many have been handed out then: the next
/// line is sent; after the last one they follow the log; and a failure ends it.
pub open spec fn greet(lines: Seq<Seq<char>>, sent: int, outcome: Outcome) -> (GreetView, int) {
    if outcome is Failed {
        (GreetView::Close, sent)
    } else if sent < lines.len() {
        (GreetView::Send(lines[sent]), sent + 1)
    } else {
        (GreetView::Register, sent)
    }
}

impl Greeting {
    /// No more lines are handed out than there are.
    pub open spec fn wf(self) -> bool {
        self.sent <= self.lines@.len()
    }

    /// Nothing has been sent yet.
    pub fn new(lines: Vec<String>) -> (r: Greeting)
        ensures
            r.wf(),
            r.lines == lines,
            r.sent == 0,
    {
        Greeting { lines, sent: 0 }
    }

    /// What to do next, given what became of the last line.
    pub fn step(&mut self, outcome: Outcome) -> (r: GreetStep)
        requires
            old(self).wf(),
        ensures
            final(self).wf(),
            final(self).lines == old(self).lines,
            (r@, final(self).sent as int) == greet(
                texts(old(self).lines@),
                old(self).sent as int,
                outcome,
            ),
    {
        match outcome {
            Outcome::Failed => GreetStep::Close,
            Outcome::Sent => if self.sent < self.lines.len() {
                let line: String = copy_string(self.lines[self.sent].as_str());
                self.sent = self.sent + 1;
                GreetStep::Send(line)
            } else {
                GreetStep::Register
            },
        }
    }
}

// ───────────────────────── laws ─────────────────────────

/// The lines that are handed out in the first `n` steps, where each of them is sent.
pub open spec fn greeted(lines: Seq<Seq<char>>, n: int) -> Seq<Seq<char>>
    decreases n,
{
    if n <= 0 {
        seq![]
    } else {
        match greet(lines, greeted(lines, n - 1).len() as int, Outcome::Sent).0 {
            GreetView::Send(s) => greeted(lines, n - 1).push(s),
            _ => greeted(lines, n - 1),
        }
    }
}

/// Someone new is sent all that the log holds, in order and each line once, before they follow
/// it: a line is handed out for as long as there is one, and only after the last of them was sent
/// do they follow the log.
pub proof fn newcomers_get_every_line_first(lines: Seq<Seq<char>>, n: int)
    requires
        0 <= n <= lines.len(),
    ensures
        greeted(lines, n) == lines.take(n),
        greet(lines, n, Outcome::Sent).0 is Register <==> n == lines.len(),
        n < lines.len() ==> greet(lines, n, Outcome::Sent) == (GreetView::Send(lines[n]), n + 1),
    decreases n,
{
    if n > 0 {
        newcomers_get_every_line_first(lines, n - 1);
        assert(lines.take(n) =~= lines.take(n - 1).push(lines[n - 1]));
    } else {
        assert(lines.take(0) =~= seq![]);
    }
}

/// Someone to whom a line could not be sent does not follow the log: the connection is closed.
pub proof fn unreached_newcomers_are_closed(lines: Seq<Seq<char>>, sent: int)
    ensures
        greet(lines, sent, Outcome::Failed).0 is Close,
{
}

/// A peer that gives no sign of life when it is asked for one is dropped an interval later,
/// whatever else came from it.
pub proof fn silent_peers_are_dropped(p: Pusher, asked: u64, heard: Heard, later: u64)
    requires
        !p.awaiting_pong,
        asked >= p.last_ping + 15000,
        !(heard is Pong),
        later >= asked + 15000,
    ensures
        beat_at(p, asked).1 is Ping,
        beat_at(after_hearing(beat_at(p, asked).0, heard), later).1 is Dead,
{
}

/// A peer that has given a sign of life since it was last asked is not dropped.
pub proof fn living_peers_are_kept(p: Pusher, now: u64)
    ensures
        !(beat_at(after_hearing(p, Heard::Pong), now).1 is Dead),
{
}

/// A peer is not asked again before an interval has passed.
pub proof fn peers_are_asked_at_intervals(p: Pusher, now: u64)
    requires
        now < p.last_ping + 15000,
    ensures
        beat_at(p, now).1 is Nothing,
        beat_at(p, now).0 == p,
{
}

} // verus!
