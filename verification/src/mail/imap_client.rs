//! The IMAP dialogue, without its socket.
//!
//! The client turns commands into lines to send, and the bytes that come back into replies.
//! Whoever owns the socket sends the lines, hands in what it has read, and asks again: each of
//! the `receive` functions takes what is complete and says whether the reply is.
use vstd::prelude::*;
use vstd::slice::{slice_subrange, slice_to_vec};

use crate::lines::{split_words, words_of};
use crate::mail::imap_lines::{
    accepted, argument, concat, date_in, extract_internaldate, first_line, first_line_is_stable,
    is_accepted, lemma_first_line, line_role, line_text, literal_len, parse_literal_len, quote,
    read_text, role, strip_all, stripped, upper_chars, Role,
};
use crate::mail::mime::{find_lf, lemma_line_end};
use crate::number::{decimal, push_decimal, read_unsigned, unsigned};
use crate::text::{
    ascii_lower, chars_of, contains_text, copy_string, prefixed, push_text, same, same_ci,
    starts_with, string_of, texts, to_ascii_lower, trim, trimmed, views, within,
};
use crate::unicode::upper_case;

verus! {

// ───────────────────────── errors ─────────────────────────

/// What can go wrong in a session.
pub enum ImapError {
    /// The connection failed, with the reason.
    Io(String),
    /// The encryption of the connection failed, with the reason.
    Tls(String),
    /// The server refused, or said something that it should not.
    Protocol(String),
    /// The server refused the login.
    Auth(String),
}

/// What an error says.
#[verifier::ext_equal]
pub enum ErrorView {
    Io(Seq<char>),
    Tls(Seq<char>),
    Protocol(Seq<char>),
    Auth(Seq<char>),
}

impl View for ImapError {
    type V = ErrorView;

    open spec fn view(&self) -> ErrorView {
        match self {
            ImapError::Io(s) => ErrorView::Io(s@),
            ImapError::Tls(s) => ErrorView::Tls(s@),
            ImapError::Protocol(s) => ErrorView::Protocol(s@),
            ImapError::Auth(s) => ErrorView::Auth(s@),
        }
    }
}

impl ErrorView {
    /// The error in words.
    pub open spec fn words(self) -> Seq<char> {
        match self {
            ErrorView::Io(s) => "IO: "@ + s,
            ErrorView::Tls(s) => "TLS: "@ + s,
            ErrorView::Protocol(s) => "协议: "@ + s,
            ErrorView::Auth(s) => "登录: "@ + s,
        }
    }
}

impl ImapError {
    /// The error in words.
    pub fn describe(&self) -> (r: String)
        ensures
            r@ == self@.words(),
    {
        let mut out: Vec<char> = Vec::new();
        match self {
            ImapError::Io(s) => {
                push_text(&mut out, "IO: ");
                push_text(&mut out, s.as_str());
            },
            ImapError::Tls(s) => {
                push_text(&mut out, "TLS: ");
                push_text(&mut out, s.as_str());
            },
            ImapError::Protocol(s) => {
                push_text(&mut out, "协议: ");
                push_text(&mut out, s.as_str());
            },
            ImapError::Auth(s) => {
                push_text(&mut out, "登录: ");
                push_text(&mut out, s.as_str());
            },
        }
        assert(out@ =~= self@.words());
        string_of(out.as_slice())
    }
}

/// What the outcome `r` of a step is, as a view.
pub open spec fn outcome<T>(r: Result<T, ImapError>) -> Result<T, ErrorView> {
    match r {
        Ok(v) => Ok(v),
        Err(e) => Err(e@),
    }
}

/// The outcome of one wait for a push.
pub enum IdleResult {
    /// The server said that there is new mail.
    Exists,
    /// The time was up, or the server does not push.
    Timeout,
}

// ───────────────────────── the client ─────────────────────────

/// The state of a dialogue.
pub struct ImapClient {
    /// The number of the last command.
    pub tag: u32,
    /// What has been received and not yet been read.
    pub buf: Vec<u8>,
    /// What the server said that it can do.
    pub capabilities: Vec<String>,
}

/// The tag of the command with that number.
pub open spec fn tag_text(n: nat) -> Seq<char> {
    seq!['A'] + decimal(n)
}

/// The line that sends the command `cmd`.
pub open spec fn command_line(tag: Seq<char>, cmd: Seq<char>) -> Seq<char> {
    tag + " "@ + cmd + "\r\n"@
}

/// The command that logs in.
pub open spec fn login_text(email: Seq<char>, password: Seq<char>) -> Seq<char> {
    "LOGIN "@ + argument(email) + " "@ + argument(password)
}

/// The command that fetches `what` of the message `uid`.
pub open spec fn fetch_text(uid: u32, what: Seq<char>) -> Seq<char> {
    "UID FETCH "@ + decimal(uid as nat) + " ("@ + what + ")"@
}

/// The two clients differ in nothing but what they have received and not yet read.
pub open spec fn same_but_buf(a: ImapClient, b: ImapClient) -> bool {
    a.tag == b.tag && a.capabilities == b.capabilities
}

impl ImapClient {
    /// A client at the start of a dialogue.
    pub fn new() -> (r: ImapClient)
        ensures
            r.tag == 0,
            r.buf@.len() == 0,
            r.capabilities@.len() == 0,
    {
        ImapClient { tag: 0, buf: Vec::new(), capabilities: Vec::new() }
    }

    /// The tag of the next command.
    pub fn next_tag(&mut self) -> (r: String)
        requires
            old(self).tag < u32::MAX,
        ensures
            final(self).tag == old(self).tag + 1,
            r@ == tag_text(final(self).tag as nat),
            final(self).buf == old(self).buf,
            final(self).capabilities == old(self).capabilities,
    {
        self.tag = self.tag + 1;
        let mut out: Vec<char> = Vec::new();
        out.push('A');
        push_decimal(&mut out, self.tag as u64);
        assert(out@ =~= tag_text(self.tag as nat));
        string_of(out.as_slice())
    }

    /// Starts the command `cmd`: the line to send, and the reply to wait for.
    pub fn command(&mut self, cmd: &str) -> (r: (String, Command))
        requires
            old(self).tag < u32::MAX,
        ensures
            final(self).tag == old(self).tag + 1,
            r.1.tag@ == tag_text(final(self).tag as nat),
            r.0@ == command_line(r.1.tag@, cmd@),
            r.1.untagged@.len() == 0,
            final(self).buf == old(self).buf,
            final(self).capabilities == old(self).capabilities,
    {
        let tag: String = self.next_tag();
        let mut out: Vec<char> = chars_of(tag.as_str());
        push_text(&mut out, " ");
        push_text(&mut out, cmd);
        push_text(&mut out, "\r\n");
        (string_of(out.as_slice()), Command { tag, untagged: Vec::new() })
    }

    /// Hands in what has been received.
    pub fn feed(&mut self, data: &[u8])
        ensures
            final(self).buf@ == old(self).buf@ + data@,
            same_but_buf(*final(self), *old(self)),
    {
        let ghost before = self.buf@;
        let mut i: usize = 0;
        while i < data.len()
            invariant
                i <= data@.len(),
                self.buf@ =~= before + data@.take(i as int),
                self.tag == old(self).tag,
                self.capabilities == old(self).capabilities,
            decreases data.len() - i,
        {
            self.buf.push(data[i]);
            i += 1;
        }
        assert(data@.take(i as int) =~= data@);
    }

    /// Drops the first `n` bytes of what has been received.
    fn drop_front(&mut self, n: usize)
        requires
            n <= old(self).buf@.len(),
        ensures
            final(self).buf@ == old(self).buf@.subrange(n as int, old(self).buf@.len() as int),
            same_but_buf(*final(self), *old(self)),
    {
        let rest: Vec<u8> = slice_to_vec(slice_subrange(self.buf.as_slice(), n, self.buf.len()));
        self.buf = rest;
    }

    /// Takes the first line of what has been received, without its end. `None` where no line
    /// is complete: then more has to be received.
    pub fn read_line(&mut self) -> (r: Option<Vec<u8>>)
        ensures
            same_but_buf(*final(self), *old(self)),
            match r {
                Some(line) => first_line(old(self).buf@) == Some((line@, final(self).buf@)),
                None => first_line(old(self).buf@) is None && final(self).buf@ == old(self).buf@,
            },
            r is Some ==> final(self).buf@.len() < old(self).buf@.len(),
    {
        proof {
            lemma_line_end(self.buf@, 0);
        }
        let k: usize = find_lf(self.buf.as_slice(), 0);
        if k >= self.buf.len() {
            return None;
        }
        let e: usize = if k > 0 && self.buf[k - 1] == 13 {
            k - 1
        } else {
            k
        };
        let line: Vec<u8> = slice_to_vec(slice_subrange(self.buf.as_slice(), 0, e));
        proof {
            let l = self.buf@.subrange(0, k as int);
            if e < k {
                assert(line@ =~= l.drop_last());
            }
        }
        self.drop_front(k + 1);
        Some(line)
    }

    /// Takes the next `n` bytes of what has been received. `None` where there are not that
    /// many yet.
    pub fn read_exact(&mut self, n: usize) -> (r: Option<Vec<u8>>)
        ensures
            same_but_buf(*final(self), *old(self)),
            match r {
                Some(b) => {
                    &&& n <= old(self).buf@.len()
                    &&& b@ == old(self).buf@.subrange(0, n as int)
                    &&& final(self).buf@ == old(self).buf@.subrange(
                        n as int,
                        old(self).buf@.len() as int,
                    )
                },
                None => n > old(self).buf@.len() && final(self).buf@ == old(self).buf@,
            },
    {
        if n > self.buf.len() {
            return None;
        }
        let b: Vec<u8> = slice_to_vec(slice_subrange(self.buf.as_slice(), 0, n));
        self.drop_front(n);
        Some(b)
    }
}

// ───────────────────────── a command and its reply ─────────────────────────

/// A command that has been sent, and the lines of data that have come back.
pub struct Command {
    pub tag: String,
    pub untagged: Vec<String>,
}

/// The lines of data that a reply has brought, what has not been read, and whether the command
/// was carried out, once the line that ends it has come.
pub struct Reply {
    pub data: Seq<Seq<char>>,
    pub rest: Seq<u8>,
    pub done: Option<bool>,
}

/// The reply to the command with the tag `tag` that stands in `b`, after the lines `data`.
pub open spec fn reply(b: Seq<u8>, tag: Seq<char>, data: Seq<Seq<char>>) -> Reply
    decreases b.len(),
{
    match first_line(b) {
        None => Reply { data, rest: b, done: None },
        Some((raw, rest)) => {
            let s = line_text(raw);
            proof {
                lemma_first_line(b);
            }
            match role(s, tag) {
                Role::Tagged => Reply { data, rest, done: Some(accepted(s, tag)) },
                Role::Untagged => reply(rest, tag, data.push(s)),
                Role::Other => reply(rest, tag, data),
            }
        },
    }
}

/// A reply does not depend on the pieces in which it is received: what has been read of it,
/// and what comes next, is what would have been read at once.
pub proof fn reply_in_pieces(
    b: Seq<u8>,
    more: Seq<u8>,
    tag: Seq<char>,
    data: Seq<Seq<char>>,
)
    requires
        reply(b, tag, data).done is None,
    ensures
        reply(b + more, tag, data) == reply(
            reply(b, tag, data).rest + more,
            tag,
            reply(b, tag, data).data,
        ),
    decreases b.len(),
{
    if let Some((raw, rest)) = first_line(b) {
        lemma_first_line(b);
        first_line_is_stable(b, more);
        let s = line_text(raw);
        match role(s, tag) {
            Role::Tagged => {},
            Role::Untagged => reply_in_pieces(rest, more, tag, data.push(s)),
            Role::Other => reply_in_pieces(rest, more, tag, data),
        }
    }
}

impl ImapClient {
    /// Reads what has come of the reply to `cmd`. Gives whether the command was carried out
    /// once the reply is complete, and `None` before.
    pub fn receive(&mut self, cmd: &mut Command) -> (r: Option<bool>)
        ensures
            final(cmd).tag == old(cmd).tag,
            same_but_buf(*final(self), *old(self)),
            ({
                let all = reply(old(self).buf@, old(cmd).tag@, texts(old(cmd).untagged@));
                &&& texts(final(cmd).untagged@) == all.data
                &&& final(self).buf@ == all.rest
                &&& r == all.done
            }),
    {
        let ghost all = reply(self.buf@, cmd.tag@, texts(cmd.untagged@));
        loop
            invariant
                cmd.tag == old(cmd).tag,
                same_but_buf(*self, *old(self)),
                all == reply(self.buf@, cmd.tag@, texts(cmd.untagged@)),
                all == reply(old(self).buf@, old(cmd).tag@, texts(old(cmd).untagged@)),
            decreases self.buf@.len(),
        {
            let raw: Vec<u8> = match self.read_line() {
                Some(raw) => raw,
                None => {
                    return None;
                },
            };
            let s: Vec<char> = read_text(raw.as_slice());
            match line_role(s.as_slice(), cmd.tag.as_str()) {
                Role::Tagged => {
                    return Some(is_accepted(s.as_slice(), cmd.tag.as_str()));
                },
                Role::Untagged => {
                    let ghost before = cmd.untagged@;
                    cmd.untagged.push(string_of(s.as_slice()));
                    assert(texts(cmd.untagged@) =~= texts(before).push(s@));
                },
                Role::Other => {},
            }
        }
    }
}

// ───────────────────────── commands ─────────────────────────

/// What is said of a login that failed.
pub open spec fn login_failed() -> Seq<char> {
    "登录失败：请确认 config.yaml 中的 password 已替换为真实 IMAP 授权码"@
}

/// The greeting has to say `* OK`.
pub open spec fn greeted(greeting: Seq<char>) -> Result<(), ErrorView> {
    if prefixed(greeting, "* OK"@) {
        Ok(())
    } else {
        Err(ErrorView::Protocol("非预期问候: "@ + trimmed(greeting)))
    }
}

/// Checks the greeting of the server.
pub fn check_greeting(raw: &[u8]) -> (r: Result<(), ImapError>)
    ensures
        outcome(r) == greeted(line_text(raw@)),
{
    let g: Vec<char> = read_text(raw);
    if starts_with(g.as_slice(), "* OK") {
        Ok(())
    } else {
        Err(ImapError::Protocol(concat("非预期问候: ", trim(g.as_slice()))))
    }
}

/// The line of data lists what the server can do.
pub open spec fn lists_capabilities(s: Seq<char>) -> bool {
    prefixed(upper_case(s), "* CAPABILITY"@)
}

/// What the server can do, by the last line that lists it; `before` where none does.
pub open spec fn capabilities_in(data: Seq<Seq<char>>, before: Seq<Seq<char>>) -> Seq<Seq<char>>
    decreases data.len(),
{
    if data.len() == 0 {
        before
    } else if lists_capabilities(data.last()) {
        words_of(stripped(data.last(), "* CAPABILITY"@))
    } else {
        capabilities_in(data.drop_last(), before)
    }
}

/// The server can push.
pub open spec fn can_idle(capabilities: Seq<Seq<char>>) -> bool {
    exists|i: int| 0 <= i < capabilities.len() && same_ci(#[trigger] capabilities[i], "IDLE"@)
}

/// The strings that hold these words.
pub fn words_to_strings(words: &[&[char]]) -> (r: Vec<String>)
    ensures
        texts(r@) == views(words@),
{
    let mut out: Vec<String> = Vec::new();
    let mut i: usize = 0;
    while i < words.len()
        invariant
            i <= words@.len(),
            out@.len() == i,
            forall|j: int| 0 <= j < i ==> (#[trigger] out@[j])@ == words@[j]@,
        decreases words.len() - i,
    {
        out.push(string_of(words[i]));
        i += 1;
    }
    assert(texts(out@) =~= views(words@));
    out
}

impl ImapClient {
    /// The command that logs in.
    pub fn login(&mut self, email: &str, password: &str) -> (r: (String, Command))
        requires
            old(self).tag < u32::MAX,
        ensures
            final(self).tag == old(self).tag + 1,
            r.1.tag@ == tag_text(final(self).tag as nat),
            r.0@ == command_line(r.1.tag@, login_text(email@, password@)),
            r.1.untagged@.len() == 0,
            final(self).buf == old(self).buf,
            final(self).capabilities == old(self).capabilities,
    {
        let mut cmd: Vec<char> = chars_of("LOGIN ");
        quote(&mut cmd, email);
        push_text(&mut cmd, " ");
        quote(&mut cmd, password);
        self.command(string_of(cmd.as_slice()).as_str())
    }

    /// The outcome of the login.
    pub fn logged_in(ok: bool) -> (r: Result<(), ImapError>)
        ensures
            outcome(r) == (if ok {
                Ok(())
            } else {
                Err(ErrorView::Auth(login_failed()))
            }),
    {
        if ok {
            Ok(())
        } else {
            Err(
                ImapError::Auth(
                    copy_string(
                        "登录失败：请确认 config.yaml 中的 password 已替换为真实 IMAP 授权码",
                    ),
                ),
            )
        }
    }

    /// The command that asks what the server can do.
    pub fn capability(&mut self) -> (r: (String, Command))
        requires
            old(self).tag < u32::MAX,
        ensures
            final(self).tag == old(self).tag + 1,
            r.1.tag@ == tag_text(final(self).tag as nat),
            r.0@ == command_line(r.1.tag@, "CAPABILITY"@),
            r.1.untagged@.len() == 0,
            final(self).buf == old(self).buf,
            final(self).capabilities == old(self).capabilities,
    {
        self.command("CAPABILITY")
    }

    /// Takes note of what the server can do. A server that does not say is taken as one that
    /// cannot push.
    pub fn note_capabilities(&mut self, ok: bool, untagged: &[String])
        ensures
            final(self).tag == old(self).tag,
            final(self).buf == old(self).buf,
            texts(final(self).capabilities@) == (if ok {
                capabilities_in(texts(untagged@), texts(old(self).capabilities@))
            } else {
                texts(old(self).capabilities@)
            }),
    {
        if !ok {
            return ;
        }
        proof {
            reveal_strlit("* CAPABILITY");
        }
        let ghost data = texts(untagged@);
        let ghost before = texts(self.capabilities@);
        let mut i: usize = 0;
        while i < untagged.len()
            invariant
                i <= untagged@.len(),
                "* CAPABILITY"@.len() > 0,
                data == texts(untagged@),
                before == texts(old(self).capabilities@),
                self.tag == old(self).tag,
                self.buf == old(self).buf,
                texts(self.capabilities@) == capabilities_in(data.take(i as int), before),
            decreases untagged.len() - i,
        {
            assert(data.take(i + 1).drop_last() =~= data.take(i as int));
            assert(data.take(i + 1).last() == untagged@[i as int]@);
            let line: Vec<char> = chars_of(untagged[i].as_str());
            if starts_with(upper_chars(line.as_slice()).as_slice(), "* CAPABILITY") {
                let words: Vec<&[char]> = split_words(strip_all(line.as_slice(), "* CAPABILITY"));
                self.capabilities = words_to_strings(words.as_slice());
            }
            i += 1;
        }
        assert(data.take(i as int) =~= data);
    }

    /// Whether the server can push.
    pub fn supports_idle(&self) -> (r: bool)
        ensures
            r == can_idle(texts(self.capabilities@)),
    {
        let want: Vec<char> = to_ascii_lower(chars_of("IDLE").as_slice());
        let ghost c = texts(self.capabilities@);
        let mut i: usize = 0;
        while i < self.capabilities.len()
            invariant
                i <= self.capabilities@.len(),
                c == texts(self.capabilities@),
                want@ == ascii_lower("IDLE"@),
                forall|j: int| 0 <= j < i ==> !same_ci(#[trigger] c[j], "IDLE"@),
            decreases self.capabilities.len() - i,
        {
            let have: Vec<char> = to_ascii_lower(
                chars_of(self.capabilities[i].as_str()).as_slice(),
            );
            if same(have.as_slice(), want.as_slice()) {
                assert(same_ci(c[i as int], "IDLE"@));
                return true;
            }
            assert(!same_ci(c[i as int], "IDLE"@));
            i += 1;
        }
        false
    }

    /// The command that says who is asking. Some servers refuse to open a mailbox without it;
    /// its outcome does not matter.
    pub fn send_id(&mut self) -> (r: (String, Command))
        requires
            old(self).tag < u32::MAX,
        ensures
            final(self).tag == old(self).tag + 1,
            r.1.tag@ == tag_text(final(self).tag as nat),
            r.0@ == command_line(
                r.1.tag@,
                "ID (\"name\" \"Mail Listener\" \"version\" \"1.0\")"@,
            ),
            r.1.untagged@.len() == 0,
            final(self).buf == old(self).buf,
            final(self).capabilities == old(self).capabilities,
    {
        self.command("ID (\"name\" \"Mail Listener\" \"version\" \"1.0\")")
    }

    /// The command that opens the mailbox.
    pub fn select_inbox(&mut self) -> (r: (String, Command))
        requires
            old(self).tag < u32::MAX,
        ensures
            final(self).tag == old(self).tag + 1,
            r.1.tag@ == tag_text(final(self).tag as nat),
            r.0@ == command_line(r.1.tag@, "SELECT INBOX"@),
            r.1.untagged@.len() == 0,
            final(self).buf == old(self).buf,
            final(self).capabilities == old(self).capabilities,
    {
        self.command("SELECT INBOX")
    }

    /// The outcome of opening the mailbox.
    pub fn selected(ok: bool) -> (r: Result<(), ImapError>)
        ensures
            outcome(r) == (if ok {
                Ok(())
            } else {
                Err(ErrorView::Protocol("select INBOX 失败"@))
            }),
    {
        if ok {
            Ok(())
        } else {
            Err(ImapError::Protocol(copy_string("select INBOX 失败")))
        }
    }
}

// ───────────────────────── searching ─────────────────────────

/// The numbers among the words.
pub open spec fn numbers_in(words: Seq<Seq<char>>) -> Seq<u32>
    decreases words.len(),
{
    if words.len() == 0 {
        seq![]
    } else {
        let front = numbers_in(words.drop_last());
        match unsigned(words.last(), 10, u32::MAX as int) {
            Some(n) => front.push(n as u32),
            None => front,
        }
    }
}

/// In ascending order.
pub open spec fn ascending(s: Seq<u32>) -> bool {
    forall|i: int, j: int| 0 <= i <= j < s.len() ==> s[i] <= s[j]
}

/// `a` comes no later than `b`.
pub open spec fn no_later() -> spec_fn(u32, u32) -> bool {
    |a: u32, b: u32| a <= b
}

/// The same numbers in ascending order.
pub open spec fn in_order(s: Seq<u32>) -> Seq<u32> {
    s.sort_by(no_later())
}

/// There is one way to put numbers into ascending order.
pub proof fn lemma_in_order(r: Seq<u32>, s: Seq<u32>)
    requires
        ascending(r),
        r.to_multiset() == s.to_multiset(),
    ensures
        r == in_order(s),
{
    let leq = no_later();
    assert(vstd::relations::total_ordering(leq));
    s.lemma_sort_by_ensures(leq);
    assert(vstd::relations::sorted_by(r, leq));
    vstd::seq_lib::lemma_sorted_unique(r, in_order(s), leq);
}

/// The first line of data from `from` on that lists what a search found.
pub open spec fn search_line(data: Seq<Seq<char>>, from: int) -> Option<int>
    decreases data.len() - from,
{
    if from < 0 || from >= data.len() {
        None
    } else if prefixed(upper_case(data[from]), "* SEARCH"@) {
        Some(from)
    } else {
        search_line(data, from + 1)
    }
}

/// What a search found, in the order in which the server lists it.
pub open spec fn search_hits(data: Seq<Seq<char>>) -> Seq<u32> {
    match search_line(data, 0) {
        Some(i) => numbers_in(words_of(stripped(data[i], "* SEARCH"@))),
        None => seq![],
    }
}

/// Puts `x` into its place in `out`.
pub fn insert_sorted(out: &mut Vec<u32>, x: u32)
    requires
        ascending(old(out)@),
    ensures
        ascending(final(out)@),
        final(out)@.to_multiset() == old(out)@.push(x).to_multiset(),
        final(out)@.len() == old(out)@.len() + 1,
{
    let mut i: usize = out.len();
    while i > 0 && out[i - 1] > x
        invariant
            i <= out@.len(),
            ascending(out@),
            forall|j: int| i <= j < out@.len() ==> out@[j] > x,
        decreases i,
    {
        i -= 1;
    }
    let ghost before = out@;
    out.insert(i, x);
    proof {
        let after = out@;
        assert forall|a: int, b: int| 0 <= a <= b < after.len() implies after[a] <= after[b] by {
            assert(a < i ==> after[a] == before[a]);
            assert(b < i ==> after[b] == before[b]);
            assert(a > i ==> after[a] == before[a - 1]);
            assert(b > i ==> after[b] == before[b - 1]);
        }
        lemma_insert_multiset(before, i as int, x);
    }
}

proof fn lemma_insert_multiset(s: Seq<u32>, i: int, x: u32)
    requires
        0 <= i <= s.len(),
    ensures
        s.insert(i, x).to_multiset() == s.push(x).to_multiset(),
{
    broadcast use vstd::seq_lib::group_to_multiset_ensures;

    let t = s.insert(i, x);
    assert(t.remove(i) =~= s);
    assert(t[i] == x);
    assert(t.contains(x));
    assert(t.to_multiset().count(x) > 0);
    assert(t.to_multiset() =~= s.to_multiset().insert(x));
}

/// The numbers among the words, in ascending order.
pub fn sorted_numbers(words: &[&[char]]) -> (r: Vec<u32>)
    ensures
        r@ == in_order(numbers_in(views(words@))),
        ascending(r@),
{
    let ghost v = views(words@);
    let mut out: Vec<u32> = Vec::new();
    let mut i: usize = 0;
    assert(out@ =~= numbers_in(v.take(0)));
    while i < words.len()
        invariant
            i <= words@.len(),
            v == views(words@),
            ascending(out@),
            out@.to_multiset() == numbers_in(v.take(i as int)).to_multiset(),
        decreases words.len() - i,
    {
        assert(v.take(i + 1).drop_last() =~= v.take(i as int));
        assert(v.take(i + 1).last() == words@[i as int]@);
        if let Some(n) = read_unsigned(words[i], 10, 4294967295) {
            proof {
                broadcast use vstd::seq_lib::group_to_multiset_ensures;

            }
            insert_sorted(&mut out, n as u32);
        }
        i += 1;
    }
    assert(v.take(i as int) =~= v);
    proof {
        lemma_in_order(out@, numbers_in(v));
    }
    out
}

impl ImapClient {
    /// The command that lists all messages.
    pub fn uid_search_all(&mut self) -> (r: (String, Command))
        requires
            old(self).tag < u32::MAX,
        ensures
            final(self).tag == old(self).tag + 1,
            r.1.tag@ == tag_text(final(self).tag as nat),
            r.0@ == command_line(r.1.tag@, "UID SEARCH ALL"@),
            r.1.untagged@.len() == 0,
            final(self).buf == old(self).buf,
            final(self).capabilities == old(self).capabilities,
    {
        self.command("UID SEARCH ALL")
    }

    /// The messages that were listed, in ascending order.
    pub fn found_uids(ok: bool, untagged: &[String]) -> (r: Result<Vec<u32>, ImapError>)
        ensures
            match r {
                Ok(uids) => {
                    &&& ok
                    &&& uids@ == in_order(search_hits(texts(untagged@)))
                    &&& ascending(uids@)
                },
                Err(e) => !ok && e@ == ErrorView::Protocol("UID SEARCH 失败"@),
            },
    {
        if !ok {
            return Err(ImapError::Protocol(copy_string("UID SEARCH 失败")));
        }
        proof {
            reveal_strlit("* SEARCH");
        }
        let ghost data = texts(untagged@);
        let mut i: usize = 0;
        while i < untagged.len()
            invariant
                i <= untagged@.len(),
                "* SEARCH"@.len() > 0,
                data == texts(untagged@),
                ok,
                search_line(data, 0) == search_line(data, i as int),
            decreases untagged.len() - i,
        {
            assert(data[i as int] == untagged@[i as int]@);
            let line: Vec<char> = chars_of(untagged[i].as_str());
            if starts_with(upper_chars(line.as_slice()).as_slice(), "* SEARCH") {
                let words: Vec<&[char]> = split_words(strip_all(line.as_slice(), "* SEARCH"));
                return Ok(sorted_numbers(words.as_slice()));
            }
            i += 1;
        }
        let none: Vec<u32> = Vec::new();
        proof {
            assert(none@ =~= search_hits(data));
            lemma_in_order(none@, search_hits(data));
        }
        Ok(none)
    }
}

// ───────────────────────── fetching ─────────────────────────

/// Where the reply to a fetch stands.
#[derive(Clone, Copy)]
pub enum FetchPhase {
    /// At the start of a line.
    Lines,
    /// Before a literal of that length.
    Literal(usize),
    /// Behind a literal, on the line that it stands on.
    Trailing,
}

/// A fetch that has been sent, and what has come back.
pub struct Fetch {
    pub tag: String,
    pub phase: FetchPhase,
    pub body: Option<Vec<u8>>,
}

/// What a fetch has brought, what has not been read, and how it ended, once it has.
pub struct FetchReply {
    pub phase: FetchPhase,
    pub body: Option<Seq<u8>>,
    pub rest: Seq<u8>,
    pub done: Option<Result<(), ErrorView>>,
}

/// What the bytes of a message are, where there is one.
pub open spec fn body_view(b: Option<Vec<u8>>) -> Option<Seq<u8>> {
    match b {
        Some(v) => Some(v@),
        None => None,
    }
}

/// The reply to the fetch with the tag `tag` that stands in `b`. A line of data that announces
/// a literal is followed by it, and by the rest of the line; the last literal is the message.
pub open spec fn fetch_reply(
    b: Seq<u8>,
    tag: Seq<char>,
    phase: FetchPhase,
    body: Option<Seq<u8>>,
) -> FetchReply
    decreases
            b.len(),
            if phase is Literal {
                1int
            } else {
                0int
            },
{
    match phase {
        FetchPhase::Literal(n) => if n <= b.len() {
            fetch_reply(
                b.subrange(n as int, b.len() as int),
                tag,
                FetchPhase::Trailing,
                Some(b.subrange(0, n as int)),
            )
        } else {
            FetchReply { phase, body, rest: b, done: None }
        },
        _ => match first_line(b) {
            None => FetchReply { phase, body, rest: b, done: None },
            Some((raw, rest)) => {
                let s = line_text(raw);
                proof {
                    lemma_first_line(b);
                }
                if phase is Trailing {
                    fetch_reply(rest, tag, FetchPhase::Lines, body)
                } else {
                    match role(s, tag) {
                        Role::Tagged => FetchReply {
                            phase,
                            body,
                            rest,
                            done: Some(
                                if accepted(s, tag) {
                                    Ok(())
                                } else {
                                    Err(ErrorView::Protocol("FETCH 失败: "@ + trimmed(s)))
                                },
                            ),
                        },
                        Role::Untagged => match literal_len(s) {
                            Some(n) => fetch_reply(
                                rest,
                                tag,
                                FetchPhase::Literal(n as usize),
                                body,
                            ),
                            None => fetch_reply(rest, tag, FetchPhase::Lines, body),
                        },
                        Role::Other => fetch_reply(rest, tag, FetchPhase::Lines, body),
                    }
                }
            },
        },
    }
}

/// The reply to a fetch does not depend on the pieces in which it is received.
pub proof fn fetch_in_pieces(
    b: Seq<u8>,
    more: Seq<u8>,
    tag: Seq<char>,
    phase: FetchPhase,
    body: Option<Seq<u8>>,
)
    requires
        fetch_reply(b, tag, phase, body).done is None,
    ensures
        ({
            let part = fetch_reply(b, tag, phase, body);
            fetch_reply(b + more, tag, phase, body) == fetch_reply(
                part.rest + more,
                tag,
                part.phase,
                part.body,
            )
        }),
    decreases
            b.len(),
            if phase is Literal {
                1int
            } else {
                0int
            },
{
    match phase {
        FetchPhase::Literal(n) => {
            if n <= b.len() {
                let tail = b.subrange(n as int, b.len() as int);
                let head = b.subrange(0, n as int);
                assert((b + more).subrange(0, n as int) =~= head);
                assert((b + more).subrange(n as int, (b + more).len() as int) =~= tail + more);
                fetch_in_pieces(tail, more, tag, FetchPhase::Trailing, Some(head));
            }
        },
        _ => {
            if let Some((raw, rest)) = first_line(b) {
                lemma_first_line(b);
                first_line_is_stable(b, more);
                let s = line_text(raw);
                if phase is Trailing {
                    fetch_in_pieces(rest, more, tag, FetchPhase::Lines, body);
                } else {
                    match role(s, tag) {
                        Role::Tagged => {},
                        Role::Untagged => match literal_len(s) {
                            Some(n) => fetch_in_pieces(
                                rest,
                                more,
                                tag,
                                FetchPhase::Literal(n as usize),
                                body,
                            ),
                            None => fetch_in_pieces(rest, more, tag, FetchPhase::Lines, body),
                        },
                        Role::Other => fetch_in_pieces(rest, more, tag, FetchPhase::Lines, body),
                    }
                }
            }
        },
    }
}

impl ImapClient {
    /// The command that fetches `what` of the message `uid`.
    fn fetch_command(uid: u32, what: &str) -> (r: String)
        ensures
            r@ == fetch_text(uid, what@),
    {
        let mut cmd: Vec<char> = chars_of("UID FETCH ");
        push_decimal(&mut cmd, uid as u64);
        push_text(&mut cmd, " (");
        push_text(&mut cmd, what);
        push_text(&mut cmd, ")");
        string_of(cmd.as_slice())
    }

    /// The command that fetches a whole message.
    pub fn uid_fetch_rfc822(&mut self, uid: u32) -> (r: (String, Fetch))
        requires
            old(self).tag < u32::MAX,
        ensures
            final(self).tag == old(self).tag + 1,
            r.1.tag@ == tag_text(final(self).tag as nat),
            r.0@ == command_line(r.1.tag@, fetch_text(uid, "RFC822"@)),
            r.1.phase is Lines,
            r.1.body is None,
            final(self).buf == old(self).buf,
            final(self).capabilities == old(self).capabilities,
    {
        let (line, cmd) = self.command(Self::fetch_command(uid, "RFC822").as_str());
        (line, Fetch { tag: cmd.tag, phase: FetchPhase::Lines, body: None })
    }

    /// Reads what has come of the reply to a fetch. Gives how it ended once the reply is
    /// complete, and `None` before. The message is then in `fetch`, where there is one.
    pub fn receive_fetch(&mut self, fetch: &mut Fetch) -> (r: Option<Result<(), ImapError>>)
        ensures
            final(fetch).tag == old(fetch).tag,
            same_but_buf(*final(self), *old(self)),
            ({
                let all = fetch_reply(
                    old(self).buf@,
                    old(fetch).tag@,
                    old(fetch).phase,
                    body_view(old(fetch).body),
                );
                &&& final(fetch).phase == all.phase
                &&& body_view(final(fetch).body) == all.body
                &&& final(self).buf@ == all.rest
                &&& match r {
                    Some(end) => all.done == Some(outcome(end)),
                    None => all.done is None,
                }
            }),
    {
        let ghost all = fetch_reply(self.buf@, fetch.tag@, fetch.phase, body_view(fetch.body));
        loop
            invariant
                fetch.tag == old(fetch).tag,
                same_but_buf(*self, *old(self)),
                all == fetch_reply(self.buf@, fetch.tag@, fetch.phase, body_view(fetch.body)),
                all == fetch_reply(
                    old(self).buf@,
                    old(fetch).tag@,
                    old(fetch).phase,
                    body_view(old(fetch).body),
                ),
            decreases
                    self.buf@.len(),
                    if fetch.phase is Literal {
                        1int
                    } else {
                        0int
                    },
        {
            match fetch.phase {
                FetchPhase::Literal(n) => {
                    match self.read_exact(n) {
                        Some(b) => {
                            fetch.body = Some(b);
                            fetch.phase = FetchPhase::Trailing;
                        },
                        None => {
                            return None;
                        },
                    }
                },
                FetchPhase::Trailing => {
                    if self.read_line().is_none() {
                        return None;
                    }
                    fetch.phase = FetchPhase::Lines;
                },
                FetchPhase::Lines => {
                    let raw: Vec<u8> = match self.read_line() {
                        Some(raw) => raw,
                        None => {
                            return None;
                        },
                    };
                    let s: Vec<char> = read_text(raw.as_slice());
                    match line_role(s.as_slice(), fetch.tag.as_str()) {
                        Role::Tagged => {
                            if is_accepted(s.as_slice(), fetch.tag.as_str()) {
                                return Some(Ok(()));
                            }
                            return Some(
                                Err(
                                    ImapError::Protocol(
                                        concat("FETCH 失败: ", trim(s.as_slice())),
                                    ),
                                ),
                            );
                        },
                        Role::Untagged => {
                            if let Some(n) = parse_literal_len(s.as_slice()) {
                                fetch.phase = FetchPhase::Literal(n);
                            }
                        },
                        Role::Other => {},
                    }
                },
            }
        }
    }

    /// The command that asks when a message was received.
    pub fn uid_fetch_internaldate(&mut self, uid: u32) -> (r: (String, Command))
        requires
            old(self).tag < u32::MAX,
        ensures
            final(self).tag == old(self).tag + 1,
            r.1.tag@ == tag_text(final(self).tag as nat),
            r.0@ == command_line(r.1.tag@, fetch_text(uid, "INTERNALDATE"@)),
            r.1.untagged@.len() == 0,
            final(self).buf == old(self).buf,
            final(self).capabilities == old(self).capabilities,
    {
        self.command(Self::fetch_command(uid, "INTERNALDATE").as_str())
    }

    /// The date that came back, on the first line of data that holds one.
    pub fn found_date(ok: bool, untagged: &[String]) -> (r: Option<String>)
        ensures
            match r {
                Some(d) => ok && date_from(texts(untagged@), 0) == Some(d@),
                None => !ok || date_from(texts(untagged@), 0) is None,
            },
    {
        if !ok {
            return None;
        }
        let ghost data = texts(untagged@);
        let mut i: usize = 0;
        while i < untagged.len()
            invariant
                i <= untagged@.len(),
                data == texts(untagged@),
                ok,
                date_from(data, 0) == date_from(data, i as int),
            decreases untagged.len() - i,
        {
            assert(data[i as int] == untagged@[i as int]@);
            let line: Vec<char> = chars_of(untagged[i].as_str());
            if let Some(d) = extract_internaldate(line.as_slice()) {
                return Some(d);
            }
            i += 1;
        }
        None
    }
}

/// The date on the first line of data from `from` on that holds one.
pub open spec fn date_from(data: Seq<Seq<char>>, from: int) -> Option<Seq<char>>
    decreases data.len() - from,
{
    if from < 0 || from >= data.len() {
        None
    } else {
        match date_in(data[from]) {
            Some(d) => Some(d),
            None => date_from(data, from + 1),
        }
    }
}

// ───────────────────────── waiting for a push ─────────────────────────

/// Where a wait for a push stands.
#[derive(Clone, Copy)]
pub enum IdlePhase {
    /// The server has not yet said that it will push.
    Starting,
    /// The server may push.
    Waiting,
    /// The server has been told to stop.
    Finishing,
}

/// A wait for a push.
pub struct Idle {
    pub tag: String,
    pub phase: IdlePhase,
    /// Whether the server has said that there is new mail.
    pub exists: bool,
}

/// What is to be done next in a wait for a push.
pub enum IdleStep {
    /// Read more, and go on.
    Read,
    /// From here on, read for as long as the wait may take, and go on.
    Listen,
    /// Send `DONE`, read with the usual patience from here on, and go on.
    SendDone,
    /// The wait is over.
    Finish(IdleResult),
}

/// What the lines of a wait lead to, and what has not been read.
pub struct IdleReply {
    pub phase: IdlePhase,
    pub exists: bool,
    pub rest: Seq<u8>,
    pub step: IdleStep,
}

/// The line of data says that there is new mail.
pub open spec fn announces_mail(s: Seq<char>) -> bool {
    within(upper_case(s), " EXISTS"@)
}

/// The lines in `b`, up to the next thing to do. A server that does not push ends the command
/// at once; one that does goes on until it announces mail, ends the command itself, or is
/// told to stop.
pub open spec fn idle_reply(b: Seq<u8>, tag: Seq<char>, phase: IdlePhase, exists: bool) -> IdleReply
    decreases b.len(),
{
    match first_line(b) {
        None => IdleReply { phase, exists, rest: b, step: IdleStep::Read },
        Some((raw, rest)) => {
            let s = line_text(raw);
            proof {
                lemma_first_line(b);
            }
            match phase {
                IdlePhase::Starting => if s.len() > 0 && s[0] == '+' {
                    IdleReply { phase: IdlePhase::Waiting, exists, rest, step: IdleStep::Listen }
                } else if role(s, tag) is Tagged {
                    IdleReply {
                        phase,
                        exists,
                        rest,
                        step: IdleStep::Finish(IdleResult::Timeout),
                    }
                } else {
                    idle_reply(rest, tag, phase, exists)
                },
                IdlePhase::Waiting => if s.len() > 0 && s[0] == '*' {
                    if announces_mail(s) {
                        IdleReply {
                            phase: IdlePhase::Finishing,
                            exists: true,
                            rest,
                            step: IdleStep::SendDone,
                        }
                    } else {
                        idle_reply(rest, tag, phase, exists)
                    }
                } else if role(s, tag) is Tagged {
                    IdleReply { phase: IdlePhase::Finishing, exists, rest, step: IdleStep::SendDone }
                } else {
                    idle_reply(rest, tag, phase, exists)
                },
                IdlePhase::Finishing => if role(s, tag) is Tagged {
                    IdleReply {
                        phase,
                        exists,
                        rest,
                        step: IdleStep::Finish(
                            if exists {
                                IdleResult::Exists
                            } else {
                                IdleResult::Timeout
                            },
                        ),
                    }
                } else {
                    idle_reply(rest, tag, phase, exists)
                },
            }
        },
    }
}

/// The lines of a wait do not depend on the pieces in which they are received.
pub proof fn idle_in_pieces(
    b: Seq<u8>,
    more: Seq<u8>,
    tag: Seq<char>,
    phase: IdlePhase,
    exists: bool,
)
    requires
        idle_reply(b, tag, phase, exists).step is Read,
    ensures
        ({
            let part = idle_reply(b, tag, phase, exists);
            &&& part.phase == phase
            &&& part.exists == exists
            &&& idle_reply(b + more, tag, phase, exists) == idle_reply(
                part.rest + more,
                tag,
                phase,
                exists,
            )
        }),
    decreases b.len(),
{
    if let Some((raw, rest)) = first_line(b) {
        lemma_first_line(b);
        first_line_is_stable(b, more);
        idle_in_pieces(rest, more, tag, phase, exists);
    }
}

/// A wait only moves forward: the server is listened to once, then told to stop once, and new
/// mail is reported only where the server announced it.
pub proof fn idle_moves_forward(b: Seq<u8>, tag: Seq<char>, phase: IdlePhase, exists: bool)
    ensures
        ({
            let next = idle_reply(b, tag, phase, exists);
            match next.step {
                IdleStep::Read => next.phase == phase && next.exists == exists,
                IdleStep::Listen => phase is Starting && next.phase is Waiting && next.exists
                    == exists,
                IdleStep::SendDone => phase is Waiting && next.phase is Finishing,
                IdleStep::Finish(IdleResult::Exists) => phase is Finishing && exists,
                IdleStep::Finish(IdleResult::Timeout) => phase is Starting || (phase is Finishing
                    && !exists),
            }
        }),
    decreases b.len(),
{
    if let Some((raw, rest)) = first_line(b) {
        lemma_first_line(b);
        idle_moves_forward(rest, tag, phase, exists);
    }
}

impl ImapClient {
    /// The command that starts to wait for a push.
    pub fn idle(&mut self) -> (r: (String, Idle))
        requires
            old(self).tag < u32::MAX,
        ensures
            final(self).tag == old(self).tag + 1,
            r.1.tag@ == tag_text(final(self).tag as nat),
            r.0@ == command_line(r.1.tag@, "IDLE"@),
            r.1.phase is Starting,
            !r.1.exists,
            final(self).buf == old(self).buf,
            final(self).capabilities == old(self).capabilities,
    {
        let (line, cmd) = self.command("IDLE");
        (line, Idle { tag: cmd.tag, phase: IdlePhase::Starting, exists: false })
    }

    /// Reads what has come of a wait for a push, up to the next thing to do.
    pub fn receive_idle(&mut self, idle: &mut Idle) -> (r: IdleStep)
        ensures
            final(idle).tag == old(idle).tag,
            same_but_buf(*final(self), *old(self)),
            ({
                let all = idle_reply(
                    old(self).buf@,
                    old(idle).tag@,
                    old(idle).phase,
                    old(idle).exists,
                );
                &&& final(idle).phase == all.phase
                &&& final(idle).exists == all.exists
                &&& final(self).buf@ == all.rest
                &&& r == all.step
            }),
    {
        let ghost all = idle_reply(self.buf@, idle.tag@, idle.phase, idle.exists);
        loop
            invariant
                idle.tag == old(idle).tag,
                same_but_buf(*self, *old(self)),
                all == idle_reply(self.buf@, idle.tag@, idle.phase, idle.exists),
                all == idle_reply(
                    old(self).buf@,
                    old(idle).tag@,
                    old(idle).phase,
                    old(idle).exists,
                ),
            decreases self.buf@.len(),
        {
            let raw: Vec<u8> = match self.read_line() {
                Some(raw) => raw,
                None => {
                    return IdleStep::Read;
                },
            };
            let s: Vec<char> = read_text(raw.as_slice());
            let tagged: bool = starts_with(s.as_slice(), idle.tag.as_str());
            match idle.phase {
                IdlePhase::Starting => {
                    if s.len() > 0 && s[0] == '+' {
                        idle.phase = IdlePhase::Waiting;
                        return IdleStep::Listen;
                    }
                    if tagged {
                        return IdleStep::Finish(IdleResult::Timeout);
                    }
                },
                IdlePhase::Waiting => {
                    if s.len() > 0 && s[0] == '*' {
                        let up: Vec<char> = upper_chars(s.as_slice());
                        if contains_text(up.as_slice(), " EXISTS") {
                            idle.exists = true;
                            idle.phase = IdlePhase::Finishing;
                            return IdleStep::SendDone;
                        }
                    } else if tagged {
                        idle.phase = IdlePhase::Finishing;
                        return IdleStep::SendDone;
                    }
                },
                IdlePhase::Finishing => {
                    if tagged {
                        return IdleStep::Finish(
                            if idle.exists {
                                IdleResult::Exists
                            } else {
                                IdleResult::Timeout
                            },
                        );
                    }
                },
            }
        }
    }
}

impl Idle {
    /// The time for reading is up. While the server may push, that ends the wait, and `DONE`
    /// is to be sent; at any other time it is an error like any other.
    pub fn timed_out(&mut self) -> (r: bool)
        ensures
            r == (old(self).phase is Waiting),
            final(self).phase == (if r {
                IdlePhase::Finishing
            } else {
                old(self).phase
            }),
            final(self).exists == old(self).exists,
            final(self).tag == old(self).tag,
    {
        match self.phase {
            IdlePhase::Waiting => {
                self.phase = IdlePhase::Finishing;
                true
            },
            _ => false,
        }
    }

    /// Whether `DONE` is to be sent before an error is passed on: while the server may push.
    pub fn ends_politely(&self) -> (r: bool)
        ensures
            r == (self.phase is Waiting),
    {
        match self.phase {
            IdlePhase::Waiting => true,
            _ => false,
        }
    }
}

// ───────────────────────── laws ─────────────────────────

/// No two commands of a dialogue have the same tag.
pub proof fn tags_are_distinct(m: nat, n: nat)
    requires
        m != n,
    ensures
        tag_text(m) != tag_text(n),
{
    crate::number::lemma_decimal(m);
    crate::number::lemma_decimal(n);
    if tag_text(m) == tag_text(n) {
        assert(tag_text(m).subrange(1, tag_text(m).len() as int) =~= decimal(m));
        assert(tag_text(n).subrange(1, tag_text(n).len() as int) =~= decimal(n));
    }
}

/// A line of data never ends a command.
pub proof fn data_is_not_tagged(s: Seq<char>, n: nat)
    requires
        s.len() > 0,
        s[0] == '*' || s[0] == '+',
    ensures
        !(role(s, tag_text(n)) is Tagged),
{
    let t = tag_text(n);
    if prefixed(s, t) {
        assert(s.subrange(0, t.len() as int)[0] == s[0]);
        assert(t[0] == 'A');
    }
}

} // verus!
