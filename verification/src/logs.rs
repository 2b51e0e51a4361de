//! The log: its lines, those who follow it, and the pages that show it.
use std::collections::VecDeque;
use vstd::prelude::*;
use vstd::slice::slice_subrange;

use crate::lines::{joined, replace, replaced};
use crate::number::{decimal, push_decimal, push_two_digits, two_digits};
use crate::text::{
    chars_of, copy_string, cut_end, find_text, found, lemma_found_at, lemma_within, occurs,
    push_all, push_text, string_of, texts, upto_class, within, Class,
};

verus! {

/// The number of lines that are kept.
pub const LOG_CAPACITY: usize = 500;

// ───────────────────────── lines ─────────────────────────

/// How much a line matters.
#[derive(Clone, Copy)]
pub enum Level {
    Error,
    Warn,
    Info,
    Debug,
    Trace,
}

impl Level {
    pub open spec fn words(self) -> Seq<char> {
        match self {
            Level::Error => "ERROR"@,
            Level::Warn => "WARN"@,
            Level::Info => "INFO"@,
            Level::Debug => "DEBUG"@,
            Level::Trace => "TRACE"@,
        }
    }

    /// The level in words.
    pub fn name(self) -> (r: &'static str)
        ensures
            r@ == self.words(),
    {
        match self {
            Level::Error => "ERROR",
            Level::Warn => "WARN",
            Level::Info => "INFO",
            Level::Debug => "DEBUG",
            Level::Trace => "TRACE",
        }
    }
}

/// A point in time, as a clock on the wall shows it.
#[derive(Clone, Copy)]
pub struct ClockTime {
    pub month: u32,
    pub day: u32,
    pub hour: u32,
    pub minute: u32,
    pub second: u32,
}

/// The time as it stands in the log; a fixed text where it is not known.
pub open spec fn timestamp(t: Option<ClockTime>) -> Seq<char> {
    match t {
        Some(t) => two_digits(t.month as nat) + "/"@ + two_digits(t.day as nat) + " "@ + two_digits(
            t.hour as nat,
        ) + ":"@ + two_digits(t.minute as nat) + ":"@ + two_digits(t.second as nat),
        None => "1970-01-01 00:00:00"@,
    }
}

/// The time as it stands in the log.
pub fn log_timestamp(t: Option<ClockTime>) -> (r: String)
    ensures
        r@ == timestamp(t),
{
    let mut out: Vec<char> = Vec::new();
    match t {
        Some(t) => {
            push_two_digits(&mut out, t.month as u64);
            push_text(&mut out, "/");
            push_two_digits(&mut out, t.day as u64);
            push_text(&mut out, " ");
            push_two_digits(&mut out, t.hour as u64);
            push_text(&mut out, ":");
            push_two_digits(&mut out, t.minute as u64);
            push_text(&mut out, ":");
            push_two_digits(&mut out, t.second as u64);
        },
        None => {
            push_text(&mut out, "1970-01-01 00:00:00");
        },
    }
    assert(out@ =~= timestamp(t));
    string_of(out.as_slice())
}

/// An event as it stands in the log: one line for all of it, the time and the level before its
/// first line, and no newline at its end.
pub open spec fn stamped(time: Seq<char>, level: Level, message: Seq<char>) -> Seq<char> {
    upto_class(time + " "@ + level.words() + " "@ + message, Class::NonNewline)
}

/// An event as it stands in the log.
pub fn stamp(time: &str, level: Level, message: &str) -> (r: String)
    ensures
        r@ == stamped(time@, level, message@),
{
    let mut out: Vec<char> = chars_of(time);
    push_text(&mut out, " ");
    push_text(&mut out, level.name());
    push_text(&mut out, " ");
    push_text(&mut out, message);
    string_of(cut_end(out.as_slice(), Class::NonNewline))
}

// ───────────────────────── the log and its followers ─────────────────────────

/// The log. Until it is installed it has no lines, and takes none.
pub struct LogCenter {
    pub lines: Option<VecDeque<String>>,
    /// Those who follow the log, by their numbers.
    pub subscribers: Vec<u64>,
    /// The number of the next one.
    pub next_id: u64,
}

/// What the lines hold, the oldest first.
pub open spec fn queue_texts(q: VecDeque<String>) -> Seq<Seq<char>> {
    Seq::new(q@.len(), |i: int| q@[i]@)
}

/// The last `n` of the lines.
pub open spec fn last_lines(s: Seq<Seq<char>>, n: int) -> Seq<Seq<char>> {
    if s.len() > n {
        s.subrange(s.len() - n, s.len() as int)
    } else {
        s
    }
}

/// A line as it is pushed to those who follow the log.
pub open spec fn pushed_line(line: Seq<char>) -> Seq<char> {
    replaced(line, '\n', "<br>"@)
}

/// The lines with one more at the end. The oldest one goes where there are more than are kept.
pub open spec fn with_line_stored(lines: Seq<Seq<char>>, line: Seq<char>) -> Seq<Seq<char>> {
    if lines.len() + 1 > LOG_CAPACITY {
        lines.push(line).subrange(1, lines.len() as int + 1)
    } else {
        lines.push(line)
    }
}

/// Adds a line. The oldest one goes where there are more than are kept.
pub fn keep_line(lines: &mut VecDeque<String>, line: String)
    ensures
        queue_texts(*final(lines)) == with_line_stored(queue_texts(*old(lines)), line@),
{
    let ghost before = queue_texts(*lines);
    let ghost new = line@;
    lines.push_back(line);
    assert(queue_texts(*lines) =~= before.push(new));
    if lines.len() > LOG_CAPACITY {
        let ghost full = queue_texts(*lines);
        let _oldest: Option<String> = lines.pop_front();
        assert(queue_texts(*lines) =~= full.subrange(1, full.len() as int));
    }
}

impl LogCenter {
    /// No two followers have the same number.
    pub open spec fn wf(self) -> bool {
        &&& self.subscribers@.no_duplicates()
        &&& forall|i: int|
            0 <= i < self.subscribers@.len() ==> #[trigger] self.subscribers@[i] < self.next_id
    }

    /// What the log holds, the oldest line first.
    pub open spec fn held(self) -> Seq<Seq<char>> {
        match self.lines {
            Some(q) => queue_texts(q),
            None => seq![],
        }
    }

    /// What is pushed for a new line: the line in one piece, where anyone follows the log.
    pub open spec fn pushed_for(self, line: Seq<char>) -> Option<Seq<char>> {
        if self.subscribers@.len() > 0 {
            Some(pushed_line(line))
        } else {
            None
        }
    }

    /// A log that is not installed.
    pub fn new() -> (r: LogCenter)
        ensures
            r.wf(),
            r.lines is None,
            r.subscribers@.len() == 0,
    {
        LogCenter { lines: None, subscribers: Vec::new(), next_id: 0 }
    }

    /// Installs the log with these lines. Only the first call counts.
    pub fn set_log_buffer(&mut self, lines: VecDeque<String>)
        requires
            old(self).wf(),
        ensures
            final(self).wf(),
            final(self).lines == (if old(self).lines is None {
                Some(lines)
            } else {
                old(self).lines
            }),
            final(self).subscribers == old(self).subscribers,
            final(self).next_id == old(self).next_id,
    {
        if self.lines.is_none() {
            self.lines = Some(lines);
        }
    }

    /// The lines of the log, the oldest first.
    pub fn snapshot_logs(&self) -> (r: Vec<String>)
        ensures
            texts(r@) == self.held(),
    {
        let mut out: Vec<String> = Vec::new();
        assert(texts(out@) =~= seq![]);
        if let Some(q) = &self.lines {
            let mut i: usize = 0;
            while i < q.len()
                invariant
                    i <= q@.len(),
                    out@.len() == i,
                    forall|j: int| 0 <= j < i ==> (#[trigger] out@[j])@ == q@[j]@,
                decreases q@.len() - i,
            {
                out.push(copy_string(q[i].as_str()));
                i += 1;
            }
            assert(texts(out@) =~= queue_texts(*q));
        }
        out
    }

    /// Adds a stamped line to the log, where it is installed, and gives what is then pushed for
    /// it: one text for all who follow the log, and `None` where nobody does.
    pub fn store_log_line(&mut self, line: &str) -> (r: Option<String>)
        requires
            old(self).wf(),
        ensures
            final(self).wf(),
            final(self).lines is Some <==> old(self).lines is Some,
            final(self).held() == (if old(self).lines is Some {
                with_line_stored(old(self).held(), line@)
            } else {
                seq![]
            }),
            final(self).subscribers == old(self).subscribers,
            final(self).next_id == old(self).next_id,
            match r {
                Some(s) => old(self).pushed_for(line@) == Some(s@),
                None => old(self).pushed_for(line@) is None,
            },
    {
        let mut taken: Option<VecDeque<String>> = None;
        std::mem::swap(&mut taken, &mut self.lines);
        if let Some(mut q) = taken {
            keep_line(&mut q, copy_string(line));
            self.lines = Some(q);
        }
        self.broadcast_log_line(line)
    }

    /// What is pushed for a new line; `None` where nobody follows the log.
    pub fn broadcast_log_line(&self, line: &str) -> (r: Option<String>)
        ensures
            match r {
                Some(s) => self.pushed_for(line@) == Some(s@),
                None => self.pushed_for(line@) is None,
            },
    {
        if self.subscribers.len() == 0 {
            return None;
        }
        Some(push_form(line))
    }

    /// Someone new follows the log. Gives their number.
    pub fn register_subscriber(&mut self) -> (r: u64)
        requires
            old(self).wf(),
            old(self).next_id < u64::MAX,
        ensures
            final(self).wf(),
            !old(self).subscribers@.contains(r),
            final(self).subscribers@ == old(self).subscribers@.push(r),
            final(self).next_id == old(self).next_id + 1,
            final(self).lines == old(self).lines,
    {
        let id: u64 = self.next_id;
        proof {
            let s = self.subscribers@;
            assert(!s.contains(id));
            assert(s.push(id).no_duplicates());
        }
        self.subscribers.push(id);
        self.next_id = id + 1;
        id
    }

    /// Someone no longer follows the log; the others still do.
    pub fn unregister_subscriber(&mut self, id: u64)
        requires
            old(self).wf(),
        ensures
            final(self).wf(),
            forall|x: u64| #[trigger]
                final(self).subscribers@.contains(x) <==> old(self).subscribers@.contains(x) && x
                    != id,
            final(self).lines == old(self).lines,
            final(self).next_id == old(self).next_id,
    {
        let ghost before = self.subscribers@;
        let mut i: usize = 0;
        while i < self.subscribers.len()
            invariant
                i <= self.subscribers@.len(),
                *self == *old(self),
                self.wf(),
                self.subscribers@ == before,
                forall|j: int| 0 <= j < i ==> #[trigger] before[j] != id,
            decreases self.subscribers.len() - i,
        {
            if self.subscribers[i] == id {
                proof {
                    lemma_swap_remove(before, i as int);
                }
                let _gone: u64 = self.subscribers.swap_remove(i);
                return ;
            }
            i += 1;
        }
        assert forall|x: u64| #[trigger] before.contains(x) implies x != id by {
            let j = choose|j: int| 0 <= j < before.len() && before[j] == x;
            assert(before[j] != id);
        }
    }

    /// Those whom a line could not be pushed to no longer follow the log; the others still do.
    pub fn drop_unreached(&mut self, lost: &[u64])
        requires
            old(self).wf(),
        ensures
            final(self).wf(),
            forall|x: u64| #[trigger]
                final(self).subscribers@.contains(x) <==> old(self).subscribers@.contains(x)
                    && !lost@.contains(x),
            final(self).lines == old(self).lines,
            final(self).next_id == old(self).next_id,
    {
        let ghost before = self.subscribers@;
        let mut k: usize = 0;
        while k < lost.len()
            invariant
                k <= lost@.len(),
                self.wf(),
                self.lines == old(self).lines,
                self.next_id == old(self).next_id,
                forall|x: u64| #[trigger]
                    self.subscribers@.contains(x) <==> before.contains(x) && !lost@.take(
                        k as int,
                    ).contains(x),
            decreases lost.len() - k,
        {
            let ghost mid = self.subscribers@;
            let ghost seen = lost@.take(k as int);
            self.unregister_subscriber(lost[k]);
            proof {
                let more = lost@.take(k + 1);
                assert(more =~= seen.push(lost@[k as int]));
                assert forall|x: u64| #[trigger] more.contains(x) <==> seen.contains(x) || x
                    == lost@[k as int] by {
                    if seen.contains(x) {
                        let j = choose|j: int| 0 <= j < seen.len() && seen[j] == x;
                        assert(more[j] == x);
                    }
                    if x == lost@[k as int] {
                        assert(more[k as int] == x);
                    }
                    if more.contains(x) {
                        let j = choose|j: int| 0 <= j < more.len() && more[j] == x;
                        if j < k {
                            assert(seen[j] == x);
                        }
                    }
                }
            }
            k += 1;
        }
        assert(lost@.take(k as int) =~= lost@);
    }
}

/// A line as it is pushed to those who follow the log: its newlines become `<br>`.
pub fn push_form(line: &str) -> (r: String)
    ensures
        r@ == pushed_line(line@),
{
    string_of(replace(chars_of(line).as_slice(), '\n', "<br>").as_slice())
}

/// Taking out one number and putting the last one in its place takes out that number only.
proof fn lemma_swap_remove(s: Seq<u64>, i: int)
    requires
        0 <= i < s.len(),
        s.no_duplicates(),
    ensures
        ({
            let t = s.update(i, s.last()).drop_last();
            &&& t.no_duplicates()
            &&& forall|x: u64| #[trigger] t.contains(x) <==> s.contains(x) && x != s[i]
            &&& forall|k: int| 0 <= k < t.len() ==> s.contains(#[trigger] t[k])
        }),
{
    let t = s.update(i, s.last()).drop_last();
    assert forall|k: int| 0 <= k < t.len() implies s.contains(#[trigger] t[k]) by {
        if k == i {
            assert(t[k] == s[s.len() - 1]);
        } else {
            assert(t[k] == s[k]);
        }
    }
    assert forall|x: u64| #[trigger] t.contains(x) <==> s.contains(x) && x != s[i] by {
        if t.contains(x) {
            let k = choose|k: int| 0 <= k < t.len() && t[k] == x;
            if k == i {
                assert(s[s.len() - 1] == x);
            } else {
                assert(s[k] == x);
            }
        }
        if s.contains(x) && x != s[i] {
            let k = choose|k: int| 0 <= k < s.len() && s[k] == x;
            if k == s.len() - 1 {
                assert(t[i] == x);
            } else {
                assert(t[k] == x);
            }
        }
    }
}

// ───────────────────────── the log as JSON ─────────────────────────

/// A hexadecimal digit in small letters.
pub open spec fn small_hex(n: int) -> char {
    if n < 10 {
        (48 + n) as u8 as char
    } else {
        (87 + n) as u8 as char
    }
}

/// A character as it stands in a JSON string.
pub open spec fn json_char(c: char) -> Seq<char> {
    if c == '"' {
        seq!['\\', '"']
    } else if c == '\\' {
        seq!['\\', '\\']
    } else if c == '\n' {
        seq!['\\', 'n']
    } else if c == '\r' {
        seq!['\\', 'r']
    } else if c == '\t' {
        seq!['\\', 't']
    } else if c <= '\u{1f}' {
        seq!['\\', 'u', '0', '0', small_hex(c as int / 16), small_hex(c as int % 16)]
    } else {
        seq![c]
    }
}

/// A text as it stands in a JSON string.
pub open spec fn json_text(s: Seq<char>) -> Seq<char>
    decreases s.len(),
{
    if s.len() == 0 {
        seq![]
    } else {
        json_text(s.drop_last()) + json_char(s.last())
    }
}

/// The hexadecimal digit for a number below 16.
fn small_hex_digit(n: u8) -> (r: char)
    requires
        n < 16,
    ensures
        r == small_hex(n as int),
{
    if n < 10 {
        (48 + n) as char
    } else {
        (87 + n) as char
    }
}

/// Appends a character as it stands in a JSON string to `out`.
fn push_json_char(out: &mut Vec<char>, x: char)
    ensures
        final(out)@ == old(out)@ + json_char(x),
{
    if x == '"' {
        out.push('\\');
        out.push('"');
    } else if x == '\\' {
        out.push('\\');
        out.push('\\');
    } else if x == '\n' {
        out.push('\\');
        out.push('n');
    } else if x == '\r' {
        out.push('\\');
        out.push('r');
    } else if x == '\t' {
        out.push('\\');
        out.push('t');
    } else if x <= '\u{1f}' {
        let n: u8 = x as u8;
        out.push('\\');
        out.push('u');
        out.push('0');
        out.push('0');
        out.push(small_hex_digit(n / 16));
        out.push(small_hex_digit(n % 16));
    } else {
        out.push(x);
    }
    assert(out@ =~= old(out)@ + json_char(x));
}

/// Appends a text as it stands in a JSON string to `out`.
pub fn json_escape(out: &mut Vec<char>, s: &str)
    ensures
        final(out)@ == old(out)@ + json_text(s@),
{
    let ghost before = out@;
    let c: Vec<char> = chars_of(s);
    let mut i: usize = 0;
    assert(c@.take(0) =~= seq![]);
    while i < c.len()
        invariant
            i <= c@.len(),
            out@ =~= before + json_text(c@.take(i as int)),
        decreases c.len() - i,
    {
        assert(c@.take(i + 1).drop_last() =~= c@.take(i as int));
        push_json_char(out, c[i]);
        i += 1;
    }
    assert(c@.take(i as int) =~= c@);
}

/// The lines as elements of a JSON array.
pub open spec fn json_items(lines: Seq<Seq<char>>) -> Seq<char>
    decreases lines.len(),
{
    if lines.len() == 0 {
        seq![]
    } else {
        let front = json_items(lines.drop_last());
        (if lines.len() == 1 {
            front
        } else {
            front + ","@
        }) + "\""@ + json_text(lines.last()) + "\""@
    }
}

/// The log as JSON: the number of its lines, and the lines.
pub open spec fn logs_json(lines: Seq<Seq<char>>) -> Seq<char> {
    "{\"count\":"@ + decimal(lines.len()) + ",\"lines\":["@ + json_items(lines) + "]}"@
}

/// The log as JSON.
pub fn render_logs_json(lines: &[String]) -> (r: String)
    ensures
        r@ == logs_json(texts(lines@)),
{
    let ghost all = texts(lines@);
    let mut out: Vec<char> = chars_of("{\"count\":");
    push_decimal(&mut out, lines.len() as u64);
    push_text(&mut out, ",\"lines\":[");
    let ghost head = out@;
    let mut i: usize = 0;
    assert(all.take(0) =~= seq![]);
    while i < lines.len()
        invariant
            i <= lines@.len(),
            all == texts(lines@),
            out@ =~= head + json_items(all.take(i as int)),
        decreases lines.len() - i,
    {
        assert(all.take(i + 1).drop_last() =~= all.take(i as int));
        assert(all.take(i + 1).last() == lines@[i as int]@);
        if i > 0 {
            push_text(&mut out, ",");
        }
        push_text(&mut out, "\"");
        json_escape(&mut out, lines[i].as_str());
        push_text(&mut out, "\"");
        assert(out@ =~= head + json_items(all.take(i + 1)));
        i += 1;
    }
    assert(all.take(i as int) =~= all);
    push_text(&mut out, "]}");
    string_of(out.as_slice())
}

// ───────────────────────── the log as a page ─────────────────────────

/// The script that tells the page where the log is pushed.
pub open spec fn port_script(ws_port: u16) -> Seq<char> {
    "<script>window.__WS_PORT__ = "@ + decimal(ws_port as nat) + ";</script>\n"@
}

/// The page that shows the log, with the script behind its `<head>`, or before all else where
/// it has none.
pub open spec fn logs_html(page: Seq<char>, ws_port: u16) -> Seq<char> {
    match found(page, "<head>"@, 0) {
        Some(i) => page.subrange(0, i + 6) + "\n    "@ + port_script(ws_port) + page.subrange(
            i + 6,
            page.len() as int,
        ),
        None => port_script(ws_port) + "\n"@ + page,
    }
}

/// The page that shows the log.
pub fn render_logs_html_with_port(page: &str, ws_port: u16) -> (r: String)
    ensures
        r@ == logs_html(page@, ws_port),
{
    let p: Vec<char> = chars_of(page);
    proof {
        reveal_strlit("<head>");
    }
    let mut script: Vec<char> = chars_of("<script>window.__WS_PORT__ = ");
    push_decimal(&mut script, ws_port as u64);
    push_text(&mut script, ";</script>\n");
    let mut out: Vec<char> = Vec::new();
    match find_text(p.as_slice(), "<head>", 0) {
        Some(i) => {
            push_all(&mut out, slice_subrange(p.as_slice(), 0, i + 6));
            push_text(&mut out, "\n    ");
            push_all(&mut out, script.as_slice());
            push_all(&mut out, slice_subrange(p.as_slice(), i + 6, p.len()));
        },
        None => {
            push_all(&mut out, script.as_slice());
            push_text(&mut out, "\n");
            push_all(&mut out, p.as_slice());
        },
    }
    assert(out@ =~= logs_html(page@, ws_port));
    string_of(out.as_slice())
}

/// The port on which the log is pushed: the next one after that of the service, and 0 after the
/// last.
pub open spec fn push_port(port: u16) -> int {
    if port == u16::MAX {
        0
    } else {
        port + 1
    }
}

/// The port on which the log is pushed: the next one after that of the service, and 0 after the
/// last.
pub fn ws_port(port: u16) -> (r: u16)
    ensures
        r == (if port == u16::MAX {
            0
        } else {
            port + 1
        }),
        r == push_port(port),
{
    if port == u16::MAX {
        0
    } else {
        port + 1
    }
}

// ───────────────────────── laws ─────────────────────────

/// A log that starts empty holds the last lines of all that have ever been added, as many as are
/// kept: that stays so with every line.
pub proof fn the_log_holds_the_last_lines(all: Seq<Seq<char>>, line: Seq<char>)
    ensures
        last_lines(all, LOG_CAPACITY as int).len() <= 500,
        all.len() >= 500 ==> last_lines(all, LOG_CAPACITY as int).len() == 500,
        with_line_stored(last_lines(all, LOG_CAPACITY as int), line) == last_lines(
            all.push(line),
            LOG_CAPACITY as int,
        ),
{
    let held = last_lines(all, LOG_CAPACITY as int);
    assert(with_line_stored(held, line) =~= last_lines(all.push(line), LOG_CAPACITY as int));
}

/// A line that is added is the last one that is held, as it was written, and no more lines are
/// held than are kept. What is pushed for it is that same line, once, wherever anyone follows the
/// log.
pub proof fn a_new_line_is_held_and_pushed(center: LogCenter, line: Seq<char>)
    ensures
        with_line_stored(center.held(), line).last() == line,
        center.held().len() <= LOG_CAPACITY ==> with_line_stored(center.held(), line).len()
            <= LOG_CAPACITY,
        center.pushed_for(line) is Some <==> center.subscribers@.len() > 0,
        center.pushed_for(line) matches Some(s) ==> s == replaced(line, '\n', "<br>"@),
{
}

/// No event is lost for being blank: with the time and the level, there is always something to
/// write.
pub proof fn a_stamped_event_is_never_empty(time: Seq<char>, level: Level, message: Seq<char>)
    ensures
        stamped(time, level, message).len() > 0,
{
    reveal_strlit("ERROR");
    reveal_strlit("WARN");
    reveal_strlit("INFO");
    reveal_strlit("DEBUG");
    reveal_strlit("TRACE");
    reveal_strlit(" ");
    let s = time + " "@ + level.words() + " "@ + message;
    crate::text::lemma_end_of(s, Class::NonNewline);
    assert(s[time.len() as int] == ' ');
    assert(Class::NonNewline.admits(s[time.len() as int]));
}

/// The value of a hexadecimal digit in small letters.
pub open spec fn small_hex_value(c: char) -> int {
    if '0' <= c <= '9' {
        c as int - 48
    } else {
        c as int - 87
    }
}

/// The text that a JSON string writes from `i` on.
pub open spec fn json_read(s: Seq<char>, i: int) -> Seq<char>
    decreases s.len() - i,
{
    if i < 0 || i >= s.len() {
        seq![]
    } else if s[i] != '\\' {
        seq![s[i]] + json_read(s, i + 1)
    } else if i + 1 < s.len() && s[i + 1] == 'n' {
        seq!['\n'] + json_read(s, i + 2)
    } else if i + 1 < s.len() && s[i + 1] == 'r' {
        seq!['\r'] + json_read(s, i + 2)
    } else if i + 1 < s.len() && s[i + 1] == 't' {
        seq!['\t'] + json_read(s, i + 2)
    } else if i + 5 < s.len() && s[i + 1] == 'u' {
        seq![
            (small_hex_value(s[i + 2]) * 4096 + small_hex_value(s[i + 3]) * 256 + small_hex_value(
                s[i + 4],
            ) * 16 + small_hex_value(s[i + 5])) as u8 as char,
        ] + json_read(s, i + 6)
    } else if i + 1 < s.len() {
        seq![s[i + 1]] + json_read(s, i + 2)
    } else {
        seq![]
    }
}

proof fn lemma_json_behind(a: Seq<char>, t: Seq<char>, i: int)
    requires
        0 <= i <= t.len(),
    ensures
        json_read(a + t, a.len() + i) == json_read(t, i),
    decreases t.len() - i,
{
    let s = a + t;
    if i < t.len() {
        assert forall|k: int| i <= k < t.len() implies #[trigger] t[k] == s[a.len() + k] by {}
        assert(s[a.len() + i] == t[i]);
        lemma_json_behind(a, t, i + 1);
        if i + 1 < t.len() {
            assert(s[a.len() + i + 1] == t[i + 1]);
            lemma_json_behind(a, t, i + 2);
        }
        if i + 5 < t.len() {
            assert(s[a.len() + i + 2] == t[i + 2]);
            assert(s[a.len() + i + 3] == t[i + 3]);
            assert(s[a.len() + i + 4] == t[i + 4]);
            assert(s[a.len() + i + 5] == t[i + 5]);
            lemma_json_behind(a, t, i + 6);
        }
    }
}

proof fn lemma_json_front(c: char, rest: Seq<char>)
    ensures
        json_text(seq![c] + rest) == json_char(c) + json_text(rest),
    decreases rest.len(),
{
    let all = seq![c] + rest;
    if rest.len() == 0 {
        assert(all.drop_last() =~= seq![]);
        assert(json_text(all.drop_last()) =~= seq![]);
        assert(json_text(all) =~= json_char(c) + json_text(rest));
    } else {
        assert(all.drop_last() =~= seq![c] + rest.drop_last());
        lemma_json_front(c, rest.drop_last());
        assert(json_text(all) =~= json_char(c) + json_text(rest));
    }
}

proof fn lemma_json_char(c: char, rest: Seq<char>)
    ensures
        json_read(json_char(c) + rest, 0) == seq![c] + json_read(rest, 0),
{
    let head = json_char(c);
    let s = head + rest;
    lemma_json_behind(head, rest, 0);
    if c <= '\u{1f}' && c != '\n' && c != '\r' && c != '\t' {
        assert(s[0] == '\\' && s[1] == 'u' && s[2] == '0' && s[3] == '0');
        assert(s[4] == small_hex(c as int / 16));
        assert(s[5] == small_hex(c as int % 16));
        lemma_small_hex(c as int / 16);
        lemma_small_hex(c as int % 16);
        assert(json_read(s, 0) =~= seq![c] + json_read(s, 6));
    } else if head.len() == 2 {
        assert(s[0] == '\\');
        assert(s[1] == head[1]);
        assert(json_read(s, 0) =~= seq![c] + json_read(s, 2));
    } else {
        assert(s[0] == c);
        assert(json_read(s, 0) =~= seq![c] + json_read(s, 1));
    }
}

proof fn lemma_small_hex(n: int)
    requires
        0 <= n < 16,
    ensures
        small_hex_value(small_hex(n)) == n,
{
}

/// A text written into a JSON string is read back as it was.
pub proof fn json_round_trip(s: Seq<char>)
    ensures
        json_read(json_text(s), 0) == s,
    decreases s.len(),
{
    if s.len() > 0 {
        let rest = s.drop_first();
        assert(seq![s[0]] + rest =~= s);
        lemma_json_front(s[0], rest);
        lemma_json_char(s[0], json_text(rest));
        json_round_trip(rest);
    }
}

/// A JSON string holds no control character, whatever the text.
pub proof fn json_holds_no_control_character(s: Seq<char>)
    ensures
        forall|i: int| 0 <= i < json_text(s).len() ==> (#[trigger] json_text(s)[i]) > '\u{1f}',
    decreases s.len(),
{
    if s.len() > 0 {
        json_holds_no_control_character(s.drop_last());
        let front = json_text(s.drop_last());
        lemma_json_char_printable(s.last());
        assert forall|i: int| 0 <= i < json_text(s).len() implies (#[trigger] json_text(s)[i])
            > '\u{1f}' by {
            if i < front.len() {
                assert(json_text(s)[i] == front[i]);
            } else {
                assert(json_text(s)[i] == json_char(s.last())[i - front.len()]);
            }
        }
    }
}

proof fn lemma_json_char_printable(c: char)
    ensures
        forall|i: int| 0 <= i < json_char(c).len() ==> (#[trigger] json_char(c)[i]) > '\u{1f}',
{
}

/// An event is written with its time and its level before it, and as it is; newlines at its end are
/// left out, and no others.
pub proof fn events_are_written_as_they_are(
    time: Seq<char>,
    level: Level,
    message: Seq<char>,
    n: nat,
)
    requires
        message.len() > 0,
        message.last() != '\n',
    ensures
        ({
            let name = match level {
                Level::Error => "ERROR"@,
                Level::Warn => "WARN"@,
                Level::Info => "INFO"@,
                Level::Debug => "DEBUG"@,
                Level::Trace => "TRACE"@,
            };
            stamped(time, level, message + Seq::new(n, |i: int| '\n')) == time + seq![' '] + name
                + seq![' '] + message
        }),
{
    reveal_strlit(" ");
    assert(" "@ =~= seq![' ']);
    let ends = Seq::new(n, |i: int| '\n');
    let head = time + " "@ + level.words() + " "@;
    let s = head + (message + ends);
    let k = (head + message).len() as int;
    assert(s[k - 1] == message[message.len() - 1]);
    assert forall|i: int| k <= i < s.len() implies !Class::NonNewline.admits(#[trigger] s[i]) by {
        assert(s[i] == ends[i - k]);
    }
    crate::text::lemma_end_of_is(s, Class::NonNewline, k);
    assert(s.subrange(0, k) =~= head + message);
}

/// The time of an event is the month, the day, the hour, the minute and the second, each in two
/// digits.
pub proof fn times_are_written_in_two_digits(t: ClockTime)
    requires
        t.month < 100,
        t.day < 100,
        t.hour < 100,
        t.minute < 100,
        t.second < 100,
    ensures
        ({
            let s = timestamp(Some(t));
            let value = |i: int| (s[i] as int - 48) * 10 + (s[i + 1] as int - 48);
            &&& s.len() == 14
            &&& value(0) == t.month && s[2] == '/' && value(3) == t.day && s[5] == ' '
            &&& value(6) == t.hour && s[8] == ':' && value(9) == t.minute && s[11] == ':'
            &&& value(12) == t.second
        }),
{
    reveal_strlit("/");
    reveal_strlit(" ");
    reveal_strlit(":");
    lemma_pair(t.month as nat);
    lemma_pair(t.day as nat);
    lemma_pair(t.hour as nat);
    lemma_pair(t.minute as nat);
    lemma_pair(t.second as nat);
    let a = two_digits(t.month as nat);
    let b = two_digits(t.day as nat);
    let c = two_digits(t.hour as nat);
    let d = two_digits(t.minute as nat);
    let e = two_digits(t.second as nat);
    let s = timestamp(Some(t));
    assert(s[0] == a[0] && s[1] == a[1] && s[3] == b[0] && s[4] == b[1]);
    assert(s[6] == c[0] && s[7] == c[1] && s[9] == d[0] && s[10] == d[1]);
    assert(s[12] == e[0] && s[13] == e[1]);
}

proof fn lemma_pair(n: nat)
    requires
        n < 100,
    ensures
        two_digits(n).len() == 2,
        (two_digits(n)[0] as int - 48) * 10 + (two_digits(n)[1] as int - 48) == n,
{
    reveal_with_fuel(decimal, 2);
}

/// The lines of the log as JSON strings.
pub open spec fn json_strings(lines: Seq<Seq<char>>) -> Seq<Seq<char>> {
    Seq::new(lines.len(), |i: int| seq!['"'] + json_text(lines[i]) + seq!['"'])
}

proof fn lemma_json_items(lines: Seq<Seq<char>>)
    requires
        lines.len() > 0,
    ensures
        json_items(lines) == joined(json_strings(lines), seq![',']),
    decreases lines.len(),
{
    reveal_strlit(",");
    reveal_strlit("\"");
    let all = json_strings(lines);
    let front = lines.drop_last();
    assert(all.drop_last() =~= json_strings(front));
    if lines.len() > 1 {
        lemma_json_items(front);
        assert(json_items(lines) =~= joined(all, seq![',']));
    } else {
        assert(json_items(front) =~= seq![]);
        assert(json_items(lines) =~= all[0]);
        assert(joined(all, seq![',']) =~= all[0]) by {
            reveal_with_fuel(joined, 2);
        }
    }
}

/// The log as JSON names the number of its lines, and lists every one of them, in order, as a string
/// of its own, with commas between them.
pub proof fn every_line_is_listed(lines: Seq<Seq<char>>)
    requires
        lines.len() > 0,
    ensures
        logs_json(lines) == "{\"count\":"@ + decimal(lines.len()) + ",\"lines\":["@ + joined(
            json_strings(lines),
            seq![','],
        ) + "]}"@,
{
    lemma_json_items(lines);
}

/// The page is shown as it is, with the port put in behind its first `<head>`, or before it where it
/// has none.
pub proof fn the_page_is_told_the_port(before: Seq<char>, after: Seq<char>, port: u16)
    requires
        forall|j: int| 0 <= j < before.len() ==> !occurs(before + "<head>"@ + after, "<head>"@, j),
    ensures
        exists|script: Seq<char>|
            #[trigger] within(script, decimal(port as nat)) && logs_html(
                before + "<head>"@ + after,
                port,
            ) == before + "<head>"@ + script + after,
        !within(before, "<head>"@) ==> exists|script: Seq<char>|
            #[trigger] within(script, decimal(port as nat)) && logs_html(before, port) == script
                + before,
{
    reveal_strlit("<head>");
    let page = before + "<head>"@ + after;
    let n = before.len() as int;
    let key = "<head>"@;
    assert(page.subrange(n, n + 6) =~= key);
    lemma_found_at(page, key, 0, n);
    let d = decimal(port as nat);
    let tell = port_script(port);
    let at = "<script>window.__WS_PORT__ = "@.len() as int;
    let inner = "\n    "@ + tell;
    let m = "\n    "@.len() as int;
    assert(inner.subrange(m + at, m + at + d.len()) =~= d);
    assert(occurs(inner, d, m + at));
    assert(within(inner, d));
    assert(page.subrange(0, n + 6) =~= before + key);
    assert(page.subrange(n + 6, page.len() as int) =~= after);
    assert(logs_html(page, port) =~= before + key + inner + after);
    if !within(before, key) {
        lemma_within(before, key);
        let outer = tell + "\n"@;
        assert(outer.subrange(at, at + d.len()) =~= d);
        assert(occurs(outer, d, at));
        assert(within(outer, d));
        assert(logs_html(before, port) =~= outer + before);
    }
}

/// The log is pushed on another port than that of the service: the next one, around the end.
pub proof fn the_log_has_a_port_of_its_own(port: u16)
    ensures
        push_port(port) != port,
        push_port(port) == (port + 1) % 65536,
{
}

} // verus!
