//! What a server sends is what is read of it: messages that are fetched, and messages that are
//! listed.
use vstd::prelude::*;
use vstd::utf8::{
    encode_utf8, encode_utf8_decode_utf8, encode_utf8_valid_utf8, is_ascii_chars,
};

use crate::lines::{lemma_no_byte, words_from, words_of};
use crate::mail::imap_client::{
    announces_mail, data_is_not_tagged, fetch_reply, idle_reply, numbers_in, search_hits, tag_text,
    FetchPhase, FetchReply, IdlePhase, IdleResult, IdleStep,
};
use crate::mail::imap_lines::{
    accepted, after_tag, first_line, line_text, literal_len, role, stripped,
};
use crate::mail::mime::lemma_line_end_is;
use crate::number::{decimal, decimal_round_trip, digit_value, lemma_decimal};
use crate::text::{
    ascii_upper, blank, is_space, lemma_end_of_is, lemma_next, lemma_next_is, next, occurs,
    prefixed, within, Class,
};
use crate::unicode::upper_case;

verus! {

/// A line as the server sends it.
pub open spec fn sent_line(s: Seq<char>) -> Seq<u8> {
    encode_utf8(s) + seq![13u8, 10u8]
}

/// A line that was sent is read as it was.
pub proof fn lemma_sent_line(s: Seq<char>, rest: Seq<u8>)
    requires
        !s.contains('\n'),
    ensures
        first_line(sent_line(s) + rest) == Some((encode_utf8(s), rest)),
        line_text(encode_utf8(s)) == s,
{
    let e = encode_utf8(s);
    let b = sent_line(s) + rest;
    let k = e.len() + 1;
    lemma_no_byte(s, '\n');
    assert forall|i: int| 0 <= i < k implies #[trigger] b[i] != 10 by {
        if i < e.len() {
            assert(b[i] == e[i]);
        }
    }
    lemma_line_end_is(b, 0, k as int);
    assert(b.subrange(0, k as int).drop_last() =~= e);
    assert(b.subrange(k as int + 1, b.len() as int) =~= rest);
    encode_utf8_valid_utf8(s);
    encode_utf8_decode_utf8(s);
}

// ───────────────────────── fetching ─────────────────────────

/// The line that announces a literal of `n` bytes.
pub open spec fn announcement(head: Seq<char>, n: nat) -> Seq<char> {
    head + seq!['{'] + decimal(n) + seq!['}']
}

/// The line that ends a command that was carried out.
pub open spec fn ok_line(tag: Seq<char>, more: Seq<char>) -> Seq<char> {
    tag + seq![' ', 'O', 'K'] + more
}

/// Digits are neither braces nor line ends.
pub proof fn lemma_digits_only(n: nat)
    ensures
        forall|i: int|
            0 <= i < decimal(n).len() ==> '0' <= #[trigger] decimal(n)[i] <= '9',
{
    lemma_decimal(n);
    assert forall|i: int| 0 <= i < decimal(n).len() implies '0' <= #[trigger] decimal(n)[i]
        <= '9' by {
        assert(digit_value(decimal(n)[i], 10) is Some);
    }
}

pub proof fn lemma_announcement(head: Seq<char>, n: nat)
    requires
        !head.contains('\n'),
        n <= usize::MAX,
    ensures
        literal_len(announcement(head, n)) == Some(n as int),
        !announcement(head, n).contains('\n'),
{
    let s = announcement(head, n);
    let d = decimal(n);
    let h = head.len() as int;
    lemma_digits_only(n);
    assert(s[h] == '{');
    assert forall|i: int| h + 1 <= i < s.len() implies !Class::Is('{').admits(#[trigger] s[i]) by {
        if i < h + 1 + d.len() {
            assert(s[i] == d[i - h - 1]);
        }
    }
    lemma_end_of_is(s, Class::Is('{'), h + 1);
    let after = s.subrange(h + 1, s.len() as int);
    assert(after =~= d + seq!['}']);
    assert forall|i: int| 0 <= i < d.len() implies !Class::Is('}').admits(#[trigger] after[i]) by {
        assert(after[i] == d[i]);
    }
    lemma_next_is(after, Class::Is('}'), 0, d.len() as int);
    assert(after.subrange(0, d.len() as int) =~= d);
    assert(blank(after.subrange(d.len() as int + 1, after.len() as int)));
    decimal_round_trip(n, usize::MAX as int);
    assert forall|i: int| 0 <= i < s.len() implies #[trigger] s[i] != '\n' by {
        if i < h {
            assert(s[i] == head[i]);
            assert(head.contains(head[i]));
        } else if h < i < h + 1 + d.len() {
            assert(s[i] == d[i - h - 1]);
        }
    }
}

pub proof fn lemma_ok_line(n: nat, more: Seq<char>)
    requires
        is_ascii_chars(more),
        !more.contains('\n'),
    ensures
        ({
            let tag = tag_text(n);
            let s = ok_line(tag, more);
            &&& role(s, tag) is Tagged
            &&& accepted(s, tag)
            &&& !s.contains('\n')
        }),
{
    let tag = tag_text(n);
    let s = ok_line(tag, more);
    let t = tag.len() as int;
    assert(s.subrange(0, t) =~= tag);
    let rest = s.subrange(t, s.len() as int);
    let status = seq!['O', 'K'] + more;
    assert(rest =~= seq![' '] + status);
    lemma_next_is(rest, Class::Ink, 0, 1);
    assert(rest.subrange(1, rest.len() as int) =~= status);
    assert(after_tag(s, tag) == status);
    assert forall|i: int| 0 <= i < status.len() implies '\0' <= #[trigger] status[i]
        <= '\u{7f}' by {
        if i >= 2 {
            assert(status[i] == more[i - 2]);
        }
    }
    assert(is_ascii_chars(status));
    reveal_strlit("OK");
    assert(ascii_upper(status).subrange(0, 2) =~= "OK"@);
    assert(upper_case(status) == ascii_upper(status));
    lemma_digits_only(n);
    assert forall|i: int| 0 <= i < s.len() implies #[trigger] s[i] != '\n' by {
        if i == 0 {
            assert(s[i] == 'A');
        } else if i < t {
            assert(s[i] == decimal(n)[i - 1]);
        } else if i >= t + 3 {
            assert(s[i] == more[i - t - 3]);
            assert(more.contains(more[i - t - 3]));
        }
    }
}

/// A message comes out of a fetch as the server sent it, byte by byte, whatever it holds: the
/// server announces its length on a line of data, sends it, ends the line and then the command.
pub proof fn a_message_is_fetched(
    head: Seq<char>,
    body: Seq<u8>,
    trailing: Seq<char>,
    n: nat,
    more: Seq<char>,
    rest: Seq<u8>,
)
    requires
        head.len() > 0,
        head[0] == '*',
        !head.contains('\n'),
        body.len() <= usize::MAX,
        !trailing.contains('\n'),
        is_ascii_chars(more),
        !more.contains('\n'),
    ensures
        fetch_reply(
            sent_line(announcement(head, body.len())) + body + sent_line(trailing) + sent_line(
                ok_line(tag_text(n), more),
            ) + rest,
            tag_text(n),
            FetchPhase::Lines,
            None,
        ) == (FetchReply { phase: FetchPhase::Lines, body: Some(body), rest, done: Some(Ok(())) }),
{
    let tag = tag_text(n);
    let first = announcement(head, body.len());
    let last = ok_line(tag, more);
    let c = sent_line(last) + rest;
    let b = sent_line(trailing) + c;
    let a = body + b;
    let all = sent_line(first) + body + sent_line(trailing) + sent_line(last) + rest;
    assert(all =~= sent_line(first) + a);
    lemma_announcement(head, body.len());
    lemma_ok_line(n, more);
    lemma_sent_line(first, a);
    lemma_sent_line(trailing, c);
    lemma_sent_line(last, rest);
    assert(first[0] == '*');
    data_is_not_tagged(first, n);
    assert(role(first, tag) is Untagged);
    let len = body.len() as usize;
    assert(a.subrange(0, len as int) =~= body);
    assert(a.subrange(len as int, a.len() as int) =~= b);
    let end = FetchReply { phase: FetchPhase::Lines, body: Some(body), rest, done: Some(Ok(())) };
    assert(fetch_reply(c, tag, FetchPhase::Lines, Some(body)) == end);
    assert(fetch_reply(b, tag, FetchPhase::Trailing, Some(body)) == end);
    assert(fetch_reply(a, tag, FetchPhase::Literal(len), None) == end);
    assert(fetch_reply(all, tag, FetchPhase::Lines, None) == end);
}

// ───────────────────────── listing ─────────────────────────

/// One more word at the end of a text is one more word.
pub proof fn lemma_words_push(s: Seq<char>, w: Seq<char>, from: int)
    requires
        0 <= from <= s.len(),
        w.len() > 0,
        forall|i: int| 0 <= i < w.len() ==> !is_space(#[trigger] w[i]),
    ensures
        words_from(s + seq![' '] + w, from) == words_from(s, from).push(w),
    decreases s.len() - from,
{
    let t = s + seq![' '] + w;
    let n = s.len() as int;
    let a = next(s, Class::Ink, from);
    lemma_next(s, Class::Ink, from);
    assert forall|i: int| from <= i < a implies !Class::Ink.admits(#[trigger] t[i]) by {
        assert(t[i] == s[i]);
    }
    assert(t[n] == ' ');
    assert forall|i: int| n < i < t.len() implies !is_space(#[trigger] t[i]) by {
        assert(t[i] == w[i - n - 1]);
    }
    if a < n {
        assert(t[a] == s[a]);
        lemma_next_is(t, Class::Ink, from, a);
        let b = next(s, Class::Whitespace, a);
        lemma_next(s, Class::Whitespace, a);
        assert forall|i: int| a <= i < b implies !Class::Whitespace.admits(#[trigger] t[i]) by {
            assert(t[i] == s[i]);
        }
        if b < n {
            assert(t[b] == s[b]);
        }
        lemma_next_is(t, Class::Whitespace, a, b);
        lemma_words_push(s, w, b);
        assert(t.subrange(a, b) =~= s.subrange(a, b));
        let back = words_from(s, b);
        assert(words_from(s, from) == seq![s.subrange(a, b)] + back);
        assert(words_from(t, from) == seq![t.subrange(a, b)] + words_from(t, b));
        assert(seq![s.subrange(a, b)] + back.push(w) =~= (seq![s.subrange(a, b)] + back).push(w));
    } else {
        let e = t.len() as int;
        lemma_next_is(t, Class::Ink, from, n + 1);
        lemma_next_is(t, Class::Whitespace, n + 1, e);
        assert(t.subrange(n + 1, e) =~= w);
        lemma_next_is(t, Class::Ink, e, e);
        assert(words_from(t, e) =~= seq![]);
        assert(words_from(t, from) =~= seq![w]);
        assert(words_from(s, from) =~= seq![]);
        assert(words_from(s, from).push(w) =~= seq![w]);
    }
}

/// Numbers, with a space before each.
pub open spec fn listed(uids: Seq<u32>) -> Seq<char>
    decreases uids.len(),
{
    if uids.len() == 0 {
        seq![]
    } else {
        listed(uids.drop_last()) + seq![' '] + decimal(uids.last() as nat)
    }
}

proof fn lemma_listed(uids: Seq<u32>)
    ensures
        numbers_in(words_of(listed(uids))) == uids,
        is_ascii_chars(listed(uids)),
        listed(uids).len() > 0 ==> listed(uids)[0] == ' ',
    decreases uids.len(),
{
    if uids.len() == 0 {
        let none = Seq::<char>::empty();
        lemma_next_is(none, Class::Ink, 0, 0);
        assert(words_of(none) =~= seq![]);
        assert(numbers_in(words_of(none)) =~= uids);
    } else {
        let front = uids.drop_last();
        let u = uids.last();
        let w = decimal(u as nat);
        let before = listed(front);
        lemma_listed(front);
        lemma_digits_only(u as nat);
        lemma_decimal(u as nat);
        lemma_words_push(before, w, 0);
        let words = words_of(listed(uids));
        assert(words == words_of(before).push(w));
        assert(words.drop_last() =~= words_of(before));
        decimal_round_trip(u as nat, u32::MAX as int);
        assert(numbers_in(words) =~= front.push(u));
        assert(front.push(u) =~= uids);
        let all = listed(uids);
        assert forall|i: int| 0 <= i < all.len() implies '\0' <= #[trigger] all[i] <= '\u{7f}' by {
            if i < before.len() {
                assert(all[i] == before[i]);
            } else if i > before.len() {
                assert(all[i] == w[i - before.len() - 1]);
            }
        }
        if before.len() > 0 {
            assert(all[0] == before[0]);
        }
    }
}

/// The messages that a server lists are the messages that are found.
pub proof fn listed_messages_are_found(uids: Seq<u32>)
    ensures
        search_hits(seq!["* SEARCH"@ + listed(uids)]) == uids,
{
    reveal_strlit("* SEARCH");
    let key = "* SEARCH"@;
    let l = listed(uids);
    let line = key + l;
    lemma_listed(uids);
    assert forall|i: int| 0 <= i < line.len() implies '\0' <= #[trigger] line[i] <= '\u{7f}' by {
        if i >= 8 {
            assert(line[i] == l[i - 8]);
        }
    }
    assert(is_ascii_chars(line));
    assert(ascii_upper(line).subrange(0, 8) =~= key);
    assert(upper_case(line) == ascii_upper(line));
    assert(line.subrange(0, 8) =~= key);
    assert(line.subrange(8, line.len() as int) =~= l);
    assert(!prefixed(l, key)) by {
        if prefixed(l, key) {
            assert(l.subrange(0, 8)[0] == l[0]);
        }
    }
    assert(stripped(l, key) == l);
    assert(stripped(line, key) == l);
    assert(seq![line][0] == line);
}

// ───────────────────────── waiting for a push ─────────────────────────

/// The line on which a server announces that the mailbox now holds `n` messages.
pub open spec fn exists_line(n: nat) -> Seq<char> {
    seq!['*', ' '] + decimal(n) + " EXISTS"@
}

/// Whatever stands in front of it, the word is noticed, in any case.
proof fn lemma_exists_noticed(s: Seq<char>, front: Seq<char>, word: Seq<char>, back: Seq<char>)
    requires
        s == front + word + back,
        is_ascii_chars(s),
        ascii_upper(word) == " EXISTS"@,
    ensures
        announces_mail(s),
{
    reveal_strlit(" EXISTS");
    let k = front.len() as int;
    let up = ascii_upper(s);
    assert(word.len() == ascii_upper(word).len());
    assert forall|i: int| 0 <= i < 7 implies #[trigger] up[k + i] == ascii_upper(word)[i] by {
        assert(s[k + i] == word[i]);
    }
    assert(up.subrange(k, k + 7) =~= " EXISTS"@);
    assert(occurs(up, " EXISTS"@, k));
    assert(upper_case(s) == up);
}

/// New mail that a server announces, while it is waited for, is noticed at once, in whatever case
/// it says so and whatever else stands on the line.
pub proof fn an_announcement_ends_a_wait(
    front: Seq<char>,
    word: Seq<char>,
    back: Seq<char>,
    tag: nat,
    more: Seq<u8>,
    exists: bool,
)
    requires
        front.len() > 0,
        front[0] == '*',
        is_ascii_chars(front),
        is_ascii_chars(back),
        !front.contains('\n'),
        !back.contains('\n'),
        ascii_upper(word) == " EXISTS"@,
    ensures
        ({
            let r = idle_reply(
                sent_line(front + word + back) + more,
                tag_text(tag),
                IdlePhase::Waiting,
                exists,
            );
            &&& r.step is SendDone
            &&& r.phase is Finishing
            &&& r.exists
            &&& r.rest == more
        }),
{
    let s = front + word + back;
    reveal_strlit(" EXISTS");
    let a = front.len() as int;
    assert(word.len() == ascii_upper(word).len());
    assert forall|i: int| 0 <= i < s.len() implies '\0' <= #[trigger] s[i] <= '\u{7f}' && s[i]
        != '\n' by {
        if i < a {
            assert(s[i] == front[i]);
            assert(front.contains(front[i]));
        } else if i < a + 7 {
            assert(s[i] == word[i - a]);
            assert(ascii_upper(word)[i - a] == " EXISTS"@[i - a]);
        } else {
            assert(s[i] == back[i - a - 7]);
            assert(back.contains(back[i - a - 7]));
        }
    }
    assert(is_ascii_chars(s));
    assert(!s.contains('\n'));
    lemma_exists_noticed(s, front, word, back);
    lemma_sent_line(s, more);
    assert(s[0] == '*');
}

/// New mail that a server announces, while it is waited for, is noticed at once, however many
/// messages the mailbox holds: the wait ends, and what it ends with is that there is new mail.
pub proof fn announced_mail_is_noticed(n: nat, tag: nat, more: Seq<u8>, exists: bool)
    ensures
        ({
            let r = idle_reply(
                sent_line(exists_line(n)) + more,
                tag_text(tag),
                IdlePhase::Waiting,
                exists,
            );
            &&& r.step is SendDone
            &&& r.phase is Finishing
            &&& r.exists
            &&& r.rest == more
        }),
{
    let front = seq!['*', ' '] + decimal(n);
    reveal_strlit(" EXISTS");
    lemma_digits_only(n);
    assert forall|i: int| 0 <= i < front.len() implies '\0' <= #[trigger] front[i] <= '\u{7f}'
        && front[i] != '\n' by {
        if i >= 2 {
            assert(front[i] == decimal(n)[i - 2]);
        }
    }
    assert(ascii_upper(" EXISTS"@) =~= " EXISTS"@);
    an_announcement_ends_a_wait(front, " EXISTS"@, seq![], tag, more, exists);
    assert(exists_line(n) =~= front + " EXISTS"@ + seq![]);
}

/// Once the server has ended the command, the wait is over: with new mail where some was announced,
/// and without where none was. Lines of data before that do not matter.
pub proof fn a_wait_ends_with_its_command(
    tag: nat,
    data: Seq<char>,
    more: Seq<char>,
    rest: Seq<u8>,
    exists: bool,
)
    requires
        data.len() > 0,
        data[0] == '*',
        !data.contains('\n'),
        is_ascii_chars(more),
        !more.contains('\n'),
    ensures
        ({
            let b = sent_line(ok_line(tag_text(tag), more)) + rest;
            let r = idle_reply(b, tag_text(tag), IdlePhase::Finishing, exists);
            &&& r.step == IdleStep::Finish(
                if exists {
                    IdleResult::Exists
                } else {
                    IdleResult::Timeout
                },
            )
            &&& r.rest == rest
            &&& idle_reply(sent_line(data) + b, tag_text(tag), IdlePhase::Finishing, exists) == r
        }),
{
    let last = ok_line(tag_text(tag), more);
    let b = sent_line(last) + rest;
    lemma_ok_line(tag, more);
    lemma_sent_line(last, rest);
    lemma_sent_line(data, b);
    data_is_not_tagged(data, tag);
}

/// A server that is ready to push says so with a `+`; one that cannot ends the command at once, and
/// the wait is over without new mail.
pub proof fn a_wait_starts_where_the_server_pushes(
    tag: nat,
    ready: Seq<char>,
    more: Seq<char>,
    rest: Seq<u8>,
)
    requires
        ready.len() > 0,
        ready[0] == '+',
        !ready.contains('\n'),
        is_ascii_chars(more),
        !more.contains('\n'),
    ensures
        ({
            let r = idle_reply(
                sent_line(ready) + rest,
                tag_text(tag),
                IdlePhase::Starting,
                false,
            );
            &&& r.step is Listen
            &&& r.phase is Waiting
            &&& !r.exists
            &&& r.rest == rest
        }),
        idle_reply(
            sent_line(ok_line(tag_text(tag), more)) + rest,
            tag_text(tag),
            IdlePhase::Starting,
            false,
        ).step == IdleStep::Finish(IdleResult::Timeout),
{
    let last = ok_line(tag_text(tag), more);
    lemma_ok_line(tag, more);
    lemma_sent_line(last, rest);
    lemma_sent_line(ready, rest);
    assert(last[0] == tag_text(tag)[0]);
    assert(last[0] == 'A');
}

/// Lines of data that announce nothing do not end a wait.
pub proof fn other_data_does_not_end_a_wait(tag: nat, data: Seq<char>, rest: Seq<u8>, exists: bool)
    requires
        data.len() > 0,
        data[0] == '*',
        !data.contains('\n'),
        is_ascii_chars(data),
        !within(ascii_upper(data), " EXISTS"@),
    ensures
        idle_reply(sent_line(data) + rest, tag_text(tag), IdlePhase::Waiting, exists)
            == idle_reply(rest, tag_text(tag), IdlePhase::Waiting, exists),
{
    lemma_sent_line(data, rest);
    assert(upper_case(data) == ascii_upper(data));
}

} // verus!
