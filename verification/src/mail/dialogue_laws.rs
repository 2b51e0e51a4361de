//! Replies as servers send them, and what is read of them, whatever else they hold.
use vstd::prelude::*;
use vstd::utf8::{encode_utf8, encode_utf8_decode_utf8, encode_utf8_valid_utf8, is_ascii_chars};

use crate::lines::{lemma_no_byte, words_from, words_of};
use crate::mail::imap_client::{
    can_idle, capabilities_in, command_line, data_is_not_tagged, date_from, fetch_reply, fetch_text,
    greeted, idle_reply, login_text, numbers_in, reply, search_hits, search_line, tag_text,
    FetchPhase, IdlePhase, IdleResult, IdleStep, Reply,
};
use crate::mail::imap_laws::{
    announcement, lemma_announcement, lemma_digits_only, lemma_sent_line, lemma_words_push, listed,
    sent_line,
};
use crate::mail::imap_lines::{
    accepted, after_tag, date_in, first_line, line_text, literal_len, plain_word, role, stripped,
};
use crate::mail::mime::lemma_line_end_is;
use crate::number::{decimal, decimal_round_trip, digit_value, lemma_decimal, unsigned};
use crate::text::{
    ascii_lower, ascii_upper, is_space, lemma_end_of_is, lemma_found, lemma_found_at, lemma_next_is,
    occurs, prefixed, within, Class,
};
use crate::unicode::upper_case;

verus! {

// ───────────────────────── replies ─────────────────────────

/// The lines as the server sends them, one after the other.
pub open spec fn sent_lines(lines: Seq<Seq<char>>) -> Seq<u8>
    decreases lines.len(),
{
    if lines.len() == 0 {
        seq![]
    } else {
        sent_line(lines[0]) + sent_lines(lines.drop_first())
    }
}

/// Lines of data.
pub open spec fn data_lines(lines: Seq<Seq<char>>) -> bool {
    forall|i: int|
        0 <= i < lines.len() ==> {
            let s = #[trigger] lines[i];
            s.len() > 0 && s[0] == '*' && !s.contains('\n')
        }
}

/// The line with which the server ends a command.
pub open spec fn status_line(tag: Seq<char>, pad: Seq<char>, status: Seq<char>) -> Seq<char> {
    tag + pad + status
}

/// White space on a line.
pub open spec fn padding(pad: Seq<char>) -> bool {
    &&& !pad.contains('\n')
    &&& forall|i: int| 0 <= i < pad.len() ==> is_space(#[trigger] pad[i])
}

/// A status says that a command was carried out where it starts with `OK`, in any case.
proof fn lemma_status(n: nat, pad: Seq<char>, status: Seq<char>)
    requires
        padding(pad),
        is_ascii_chars(status),
        !status.contains('\n'),
        status.len() > 0,
        !is_space(status[0]),
    ensures
        ({
            let tag = tag_text(n);
            let s = status_line(tag, pad, status);
            &&& role(s, tag) is Tagged
            &&& accepted(s, tag) == prefixed(ascii_upper(status), "OK"@)
            &&& !s.contains('\n')
        }),
{
    let tag = tag_text(n);
    let s = status_line(tag, pad, status);
    let t = tag.len() as int;
    let p = pad.len() as int;
    assert(s.subrange(0, t) =~= tag);
    let rest = s.subrange(t, s.len() as int);
    assert(rest =~= pad + status);
    assert forall|i: int| 0 <= i < p implies !Class::Ink.admits(#[trigger] rest[i]) by {
        assert(rest[i] == pad[i]);
    }
    assert(rest[p] == status[0]);
    lemma_next_is(rest, Class::Ink, 0, p);
    assert(rest.subrange(p, rest.len() as int) =~= status);
    assert(after_tag(s, tag) == status);
    assert(upper_case(status) == ascii_upper(status));
    lemma_digits_only(n);
    assert forall|i: int| 0 <= i < s.len() implies #[trigger] s[i] != '\n' by {
        if i == 0 {
            assert(s[i] == 'A');
        } else if i < t {
            assert(s[i] == decimal(n)[i - 1]);
        } else if i < t + p {
            assert(s[i] == pad[i - t]);
            assert(pad.contains(pad[i - t]));
        } else {
            assert(s[i] == status[i - t - p]);
            assert(status.contains(status[i - t - p]));
        }
    }
}

/// A reply is read as the server sent it: every line of data, in order, and whether the command
/// was carried out, which the word behind the tag says, in any case. What comes after it is left.
pub proof fn replies_are_read(
    n: nat,
    before: Seq<Seq<char>>,
    data: Seq<Seq<char>>,
    pad: Seq<char>,
    status: Seq<char>,
    rest: Seq<u8>,
)
    requires
        data_lines(data),
        padding(pad),
        is_ascii_chars(status),
        !status.contains('\n'),
        status.len() > 0,
        !is_space(status[0]),
    ensures
        reply(
            sent_lines(data) + sent_line(status_line(tag_text(n), pad, status)) + rest,
            tag_text(n),
            before,
        ) == (Reply {
            data: before + data,
            rest,
            done: Some(prefixed(ascii_upper(status), "OK"@)),
        }),
    decreases data.len(),
{
    let tag = tag_text(n);
    let last = status_line(tag, pad, status);
    if data.len() == 0 {
        lemma_status(n, pad, status);
        lemma_sent_line(last, rest);
        assert(sent_lines(data) + sent_line(last) + rest =~= sent_line(last) + rest);
        assert(before + data =~= before);
    } else {
        let first = data[0];
        let more = data.drop_first();
        let tail = sent_lines(more) + sent_line(last) + rest;
        assert forall|i: int| 0 <= i < more.len() implies {
            let s = #[trigger] more[i];
            s.len() > 0 && s[0] == '*' && !s.contains('\n')
        } by {
            assert(more[i] == data[i + 1]);
        }
        replies_are_read(n, before.push(first), more, pad, status, rest);
        lemma_sent_line(first, tail);
        data_is_not_tagged(first, n);
        assert(sent_lines(data) + sent_line(last) + rest =~= sent_line(first) + tail);
        assert(before.push(first) + more =~= before + data);
    }
}

/// A fetch that the server refuses brings an error, and whatever it is refused with is part of it.
pub proof fn a_refused_fetch_fails(n: nat, pad: Seq<char>, status: Seq<char>, rest: Seq<u8>)
    requires
        padding(pad),
        is_ascii_chars(status),
        !status.contains('\n'),
        status.len() > 0,
        !is_space(status[0]),
        status[0] != 'O',
        status[0] != 'o',
    ensures
        ({
            let r = fetch_reply(
                sent_line(status_line(tag_text(n), pad, status)) + rest,
                tag_text(n),
                FetchPhase::Lines,
                None,
            );
            &&& r.done matches Some(Err(e))
            &&& r.body is None
            &&& r.rest == rest
        }),
{
    let last = status_line(tag_text(n), pad, status);
    lemma_status(n, pad, status);
    lemma_sent_line(last, rest);
    reveal_strlit("OK");
    if prefixed(ascii_upper(status), "OK"@) {
        assert(ascii_upper(status).subrange(0, 2)[0] == 'O');
    }
}

/// A message that is gone is no error: the command is carried out, and brings nothing.
pub proof fn a_message_that_is_gone_is_none(
    n: nat,
    pad: Seq<char>,
    status: Seq<char>,
    rest: Seq<u8>,
)
    requires
        padding(pad),
        is_ascii_chars(status),
        !status.contains('\n'),
        status.len() > 1,
        !is_space(status[0]),
        ascii_upper(status.take(2)) == "OK"@,
    ensures
        ({
            let r = fetch_reply(
                sent_line(status_line(tag_text(n), pad, status)) + rest,
                tag_text(n),
                FetchPhase::Lines,
                None,
            );
            &&& r.done matches Some(Ok(_))
            &&& r.body is None
            &&& r.rest == rest
        }),
{
    let last = status_line(tag_text(n), pad, status);
    lemma_status(n, pad, status);
    lemma_sent_line(last, rest);
    reveal_strlit("OK");
    assert(ascii_upper(status).subrange(0, 2) =~= ascii_upper(status.take(2)));
}

/// A line may end with a newline alone.
pub proof fn a_newline_ends_a_line(s: Seq<char>, rest: Seq<u8>)
    requires
        !s.contains('\n'),
        !s.contains('\r'),
    ensures
        first_line(encode_utf8(s) + seq![10u8] + rest) == Some((encode_utf8(s), rest)),
        line_text(encode_utf8(s)) == s,
{
    let e = encode_utf8(s);
    let b = e + seq![10u8] + rest;
    let k = e.len() as int;
    lemma_no_byte(s, '\n');
    lemma_no_byte(s, '\r');
    assert forall|i: int| 0 <= i < k implies #[trigger] b[i] != 10 by {
        assert(b[i] == e[i]);
    }
    assert(b[k] == 10);
    lemma_line_end_is(b, 0, k);
    assert(b.subrange(0, k) =~= e);
    assert(b.subrange(k + 1, b.len() as int) =~= rest);
    encode_utf8_valid_utf8(s);
    encode_utf8_decode_utf8(s);
}

/// A server is greeted back where it says `* OK`, whatever it adds, and given up otherwise.
pub proof fn a_greeting_says_ok(s: Seq<char>)
    ensures
        greeted("* OK"@ + s) is Ok,
        s.len() < 4 || s.take(4) != "* OK"@ ==> greeted(s) is Err,
{
    reveal_strlit("* OK");
    assert(("* OK"@ + s).subrange(0, 4) =~= "* OK"@);
    if prefixed(s, "* OK"@) {
        assert(s.take(4) =~= s.subrange(0, 4));
    }
}

// ───────────────────────── what the server can do ─────────────────────────

/// Words, with a space before each.
pub open spec fn spaced(words: Seq<Seq<char>>) -> Seq<char>
    decreases words.len(),
{
    if words.len() == 0 {
        seq![]
    } else {
        spaced(words.drop_last()) + seq![' '] + words.last()
    }
}

/// A word of ASCII characters.
pub open spec fn ascii_word(w: Seq<char>) -> bool {
    &&& w.len() > 0
    &&& is_ascii_chars(w)
    &&& forall|i: int| 0 <= i < w.len() ==> !is_space(#[trigger] w[i])
}

/// Words that follow a text are words, after those of the text.
proof fn lemma_spaced(s: Seq<char>, words: Seq<Seq<char>>)
    requires
        forall|i: int| 0 <= i < words.len() ==> ascii_word(#[trigger] words[i]),
        is_ascii_chars(s),
    ensures
        words_of(s + spaced(words)) == words_of(s) + words,
        is_ascii_chars(s + spaced(words)),
        spaced(words).len() > 0 ==> spaced(words)[0] == ' ',
    decreases words.len(),
{
    if words.len() == 0 {
        assert(s + spaced(words) =~= s);
        assert(words_of(s) + words =~= words_of(s));
    } else {
        let front = words.drop_last();
        let w = words[words.len() - 1];
        assert forall|i: int| 0 <= i < front.len() implies ascii_word(#[trigger] front[i]) by {
            assert(front[i] == words[i]);
        }
        lemma_spaced(s, front);
        let t = s + spaced(front);
        lemma_words_push(t, w, 0);
        assert(s + spaced(words) =~= t + seq![' '] + w);
        assert((words_of(s) + front).push(w) =~= words_of(s) + words);
        let all = s + spaced(words);
        assert forall|i: int| 0 <= i < all.len() implies '\0' <= #[trigger] all[i] <= '\u{7f}' by {
            if i < t.len() {
                assert(all[i] == t[i]);
            } else if i > t.len() {
                assert(all[i] == w[i - t.len() - 1]);
            }
        }
        if spaced(front).len() > 0 {
            assert(spaced(words)[0] == spaced(front)[0]);
        }
    }
}

/// A line on which `key` does not stand first, in any case.
pub open spec fn other_line(s: Seq<char>, key: Seq<char>) -> bool {
    is_ascii_chars(s) && !prefixed(ascii_upper(s), key)
}

proof fn lemma_capabilities_stay(
    data: Seq<Seq<char>>,
    after: Seq<Seq<char>>,
    before: Seq<Seq<char>>,
)
    requires
        forall|i: int| 0 <= i < after.len() ==> other_line(#[trigger] after[i], "* CAPABILITY"@),
    ensures
        capabilities_in(data + after, before) == capabilities_in(data, before),
    decreases after.len(),
{
    if after.len() == 0 {
        assert(data + after =~= data);
    } else {
        let front = after.drop_last();
        let l = after[after.len() - 1];
        assert(other_line(l, "* CAPABILITY"@));
        assert(upper_case(l) == ascii_upper(l));
        assert((data + after).last() == l);
        assert((data + after).drop_last() =~= data + front);
        assert forall|i: int| 0 <= i < front.len() implies other_line(
            #[trigger] front[i],
            "* CAPABILITY"@,
        ) by {
            assert(front[i] == after[i]);
        }
        lemma_capabilities_stay(data, front, before);
    }
}

/// What a server lists is what it can do, wherever in its reply it lists it; and it can push where
/// it lists `IDLE`, in any case, and not otherwise.
pub proof fn listed_capabilities_are_noted(
    data: Seq<Seq<char>>,
    words: Seq<Seq<char>>,
    after: Seq<Seq<char>>,
    before: Seq<Seq<char>>,
)
    requires
        forall|i: int| 0 <= i < words.len() ==> ascii_word(#[trigger] words[i]),
        forall|i: int| 0 <= i < after.len() ==> other_line(#[trigger] after[i], "* CAPABILITY"@),
    ensures
        capabilities_in(data.push("* CAPABILITY"@ + spaced(words)) + after, before) == words,
        can_idle(words) <==> exists|i: int|
            0 <= i < words.len() && ascii_lower(#[trigger] words[i]) == "idle"@,
{
    reveal_strlit("* CAPABILITY");
    reveal_strlit("IDLE");
    reveal_strlit("idle");
    let key = "* CAPABILITY"@;
    let l = spaced(words);
    let line = key + l;
    assert(is_ascii_chars(key));
    lemma_spaced(key, words);
    lemma_spaced(seq![], words);
    assert(Seq::<char>::empty() + l =~= l);
    assert(words_of(Seq::<char>::empty()) =~= seq![]) by {
        lemma_next_is(Seq::<char>::empty(), Class::Ink, 0, 0);
    }
    assert(words_of(Seq::<char>::empty()) + words =~= words);
    assert(ascii_upper(line).subrange(0, 12) =~= key);
    assert(upper_case(line) == ascii_upper(line));
    assert(line.subrange(0, 12) =~= key);
    assert(line.subrange(12, line.len() as int) =~= l);
    assert(!prefixed(l, key)) by {
        if prefixed(l, key) {
            assert(l.subrange(0, 12)[0] == l[0]);
        }
    }
    assert(stripped(l, key) == l);
    assert(stripped(line, key) == l);
    lemma_capabilities_stay(data.push(line), after, before);
    assert(data.push(line).last() == line);
    assert(ascii_lower("IDLE"@) =~= "idle"@);
}

/// A server that lists nothing stays what it was taken for.
pub proof fn unlisted_capabilities_stay(data: Seq<Seq<char>>, before: Seq<Seq<char>>)
    requires
        forall|i: int| 0 <= i < data.len() ==> other_line(#[trigger] data[i], "* CAPABILITY"@),
    ensures
        capabilities_in(data, before) == before,
{
    lemma_capabilities_stay(seq![], data, before);
    assert(Seq::<Seq<char>>::empty() + data =~= data);
}

// ───────────────────────── what the server found ─────────────────────────

proof fn lemma_numbers_after(s: Seq<char>, uids: Seq<u32>)
    requires
        is_ascii_chars(s),
    ensures
        numbers_in(words_of(s + listed(uids))) == numbers_in(words_of(s)) + uids,
        is_ascii_chars(s + listed(uids)),
        listed(uids).len() > 0 ==> listed(uids)[0] == ' ',
    decreases uids.len(),
{
    if uids.len() == 0 {
        assert(s + listed(uids) =~= s);
        assert(numbers_in(words_of(s)) + uids =~= numbers_in(words_of(s)));
    } else {
        let front = uids.drop_last();
        let u = uids.last();
        let w = decimal(u as nat);
        lemma_numbers_after(s, front);
        lemma_digits_only(u as nat);
        lemma_decimal(u as nat);
        let t = s + listed(front);
        lemma_words_push(t, w, 0);
        let all = s + listed(uids);
        assert(all =~= t + seq![' '] + w);
        let words = words_of(all);
        assert(words.drop_last() =~= words_of(t));
        decimal_round_trip(u as nat, u32::MAX as int);
        assert(numbers_in(words) =~= (numbers_in(words_of(s)) + front).push(u));
        assert((numbers_in(words_of(s)) + front).push(u) =~= numbers_in(words_of(s)) + uids);
        assert forall|i: int| 0 <= i < all.len() implies '\0' <= #[trigger] all[i] <= '\u{7f}' by {
            if i < t.len() {
                assert(all[i] == t[i]);
            } else if i > t.len() {
                assert(all[i] == w[i - t.len() - 1]);
            }
        }
        if listed(front).len() > 0 {
            assert(listed(uids)[0] == listed(front)[0]);
        }
    }
}

proof fn lemma_search_line(before: Seq<Seq<char>>, line: Seq<char>, after: Seq<Seq<char>>, i: int)
    requires
        forall|j: int| 0 <= j < before.len() ==> other_line(#[trigger] before[j], "* SEARCH"@),
        prefixed(upper_case(line), "* SEARCH"@),
        0 <= i <= before.len(),
    ensures
        search_line(before.push(line) + after, i) == Some(before.len() as int),
    decreases before.len() - i,
{
    let all = before.push(line) + after;
    if i < before.len() {
        assert(all[i] == before[i]);
        assert(other_line(before[i], "* SEARCH"@));
        assert(upper_case(before[i]) == ascii_upper(before[i]));
        lemma_search_line(before, line, after, i + 1);
    } else {
        assert(all[i] == line);
    }
}

/// The two words before the list are no numbers.
proof fn lemma_search_key(key: Seq<char>)
    requires
        ascii_upper(key) == "* SEARCH"@,
    ensures
        numbers_in(words_of(key)) == Seq::<u32>::empty(),
        is_ascii_chars(key),
        key.len() == 8,
        key[0] == '*',
{
    reveal_strlit("* SEARCH");
    assert(ascii_upper(key).len() == key.len());
    assert forall|i: int| 0 <= i < 8 implies #[trigger] ascii_upper(key)[i] == "* SEARCH"@[i] by {}
    assert forall|i: int| 0 <= i < 8 implies '\0' <= #[trigger] key[i] <= '\u{7f}' by {
        assert(ascii_upper(key)[i] == "* SEARCH"@[i]);
    }
    assert(ascii_upper(key)[0] == '*');
    assert(ascii_upper(key)[1] == ' ');
    assert(ascii_upper(key)[2] == 'S');
    assert forall|i: int| 2 <= i < 8 implies !is_space(#[trigger] key[i]) by {
        assert(ascii_upper(key)[i] == "* SEARCH"@[i]);
    }
    lemma_next_is(key, Class::Ink, 0, 0);
    lemma_next_is(key, Class::Whitespace, 0, 1);
    lemma_next_is(key, Class::Ink, 1, 2);
    lemma_next_is(key, Class::Whitespace, 2, 8);
    lemma_next_is(key, Class::Ink, 8, 8);
    let a = key.subrange(0, 1);
    let b = key.subrange(2, 8);
    assert(words_from(key, 8) =~= seq![]);
    assert(words_from(key, 1) =~= seq![b]);
    assert(words_of(key) =~= seq![a, b]);
    assert(digit_value(a[0], 10) is None);
    assert(digit_value(b[0], 10) is None);
    assert(a[0] != '+' && b[0] != '+');
    assert(unsigned(a, 10, u32::MAX as int) is None);
    assert(unsigned(b, 10, u32::MAX as int) is None);
    assert(seq![a, b].drop_last() =~= seq![a]);
    assert(seq![a].drop_last() =~= seq![]);
    reveal_with_fuel(numbers_in, 3);
}

/// The messages that a server lists are the messages that are found, in whatever case it names the
/// list, and whatever other data it sends.
pub proof fn listed_messages_are_found_anywhere(
    before: Seq<Seq<char>>,
    key: Seq<char>,
    uids: Seq<u32>,
    after: Seq<Seq<char>>,
)
    requires
        ascii_upper(key) == "* SEARCH"@,
        forall|j: int| 0 <= j < before.len() ==> other_line(#[trigger] before[j], "* SEARCH"@),
    ensures
        search_hits(before.push(key + listed(uids)) + after) == uids,
{
    reveal_strlit("* SEARCH");
    let word = "* SEARCH"@;
    let l = listed(uids);
    let line = key + l;
    lemma_search_key(key);
    lemma_numbers_after(key, uids);
    assert(upper_case(line) == ascii_upper(line));
    assert(ascii_upper(line).subrange(0, 8) =~= ascii_upper(key));
    lemma_search_line(before, line, after, 0);
    assert((before.push(line) + after)[before.len() as int] == line);
    assert(Seq::<u32>::empty() + uids =~= uids);
    if prefixed(line, word) {
        lemma_numbers_after(seq![], uids);
        assert(Seq::<char>::empty() + l =~= l);
        assert(words_of(Seq::<char>::empty()) =~= seq![]) by {
            lemma_next_is(Seq::<char>::empty(), Class::Ink, 0, 0);
        }
        assert(line.subrange(8, line.len() as int) =~= l);
        assert(!prefixed(l, word)) by {
            if prefixed(l, word) {
                assert(l.subrange(0, 8)[0] == l[0]);
            }
        }
        assert(stripped(l, word) == l);
        assert(stripped(line, word) == l);
        assert(numbers_in(words_of(l)) =~= uids);
    } else {
        assert(stripped(line, word) == line);
    }
}

// ───────────────────────── when a message came ─────────────────────────

/// The date of a message is what stands in quotes behind its name, in any case, whatever stands
/// before it and behind it on the line.
pub proof fn a_date_is_found(
    head: Seq<char>,
    word: Seq<char>,
    gap: Seq<char>,
    date: Seq<char>,
    tail: Seq<char>,
)
    requires
        ascii_lower(word) == "internaldate"@,
        forall|j: int|
            0 <= j < head.len() ==> !occurs(
                ascii_lower(head + word + gap + seq!['"'] + date + seq!['"'] + tail),
                "internaldate"@,
                j,
            ),
        !gap.contains('"'),
        !date.contains('"'),
    ensures
        date_in(head + word + gap + seq!['"'] + date + seq!['"'] + tail) == Some(date),
{
    reveal_strlit("internaldate");
    reveal_strlit("INTERNALDATE");
    let s = head + word + gap + seq!['"'] + date + seq!['"'] + tail;
    let low = ascii_lower(s);
    let key = "internaldate"@;
    let h = head.len() as int;
    assert(ascii_lower("INTERNALDATE"@) =~= key);
    assert(ascii_lower(word).len() == word.len());
    assert(low.subrange(h, h + 12) =~= ascii_lower(word)) by {
        assert forall|i: int| 0 <= i < 12 implies #[trigger] low[h + i] == ascii_lower(word)[i] by {
            assert(s[h + i] == word[i]);
        }
    }
    assert(occurs(low, key, h));
    lemma_found_at(low, key, 0, h);
    let a = h + 12 + gap.len();
    let b = a + 1 + date.len();
    assert forall|i: int| h + 12 <= i < a implies !Class::Is('"').admits(#[trigger] s[i]) by {
        assert(s[i] == gap[i - h - 12]);
        assert(gap.contains(gap[i - h - 12]));
    }
    assert(s[a] == '"');
    lemma_next_is(s, Class::Is('"'), h + 12, a);
    assert forall|i: int| a + 1 <= i < b implies !Class::Is('"').admits(#[trigger] s[i]) by {
        assert(s[i] == date[i - a - 1]);
        assert(date.contains(date[i - a - 1]));
    }
    assert(s[b] == '"');
    lemma_next_is(s, Class::Is('"'), a + 1, b);
    assert(s.subrange(a + 1, b) =~= date);
}

/// The first line of data that holds a date counts; lines that do not name one are passed over.
pub proof fn the_first_date_counts(
    before: Seq<Seq<char>>,
    line: Seq<char>,
    after: Seq<Seq<char>>,
    i: int,
)
    requires
        forall|j: int|
            0 <= j < before.len() ==> !within(
                ascii_lower(#[trigger] before[j]),
                "internaldate"@,
            ),
        date_in(line) is Some,
        0 <= i <= before.len(),
    ensures
        date_from(before.push(line) + after, i) == date_in(line),
    decreases before.len() - i,
{
    let all = before.push(line) + after;
    if i < before.len() {
        reveal_strlit("internaldate");
        reveal_strlit("INTERNALDATE");
        assert(ascii_lower("INTERNALDATE"@) =~= "internaldate"@);
        assert(all[i] == before[i]);
        let low = ascii_lower(before[i]);
        lemma_found(low, "internaldate"@, 0);
        the_first_date_counts(before, line, after, i + 1);
    } else {
        assert(all[i] == line);
    }
}

// ───────────────────────── commands ─────────────────────────

/// The words of a login are its tag, its name, the address and the password, where these can stand
/// without quotes.
pub proof fn a_login_says_who(n: nat, email: Seq<char>, password: Seq<char>)
    requires
        plain_word(email),
        plain_word(password),
    ensures
        words_of(command_line(tag_text(n), login_text(email, password))) == seq![
            tag_text(n),
            "LOGIN"@,
            email,
            password,
        ],
{
    let tag = tag_text(n);
    reveal_strlit("LOGIN ");
    reveal_strlit("LOGIN");
    reveal_strlit(" ");
    reveal_strlit("\r\n");
    lemma_tag_word(n);
    let s1 = tag + seq![' '] + "LOGIN"@;
    let s2 = s1 + seq![' '] + email;
    let s3 = s2 + seq![' '] + password;
    lemma_words_push(tag, "LOGIN"@, 0);
    lemma_words_push(s1, email, 0);
    lemma_words_push(s2, password, 0);
    lemma_words_end(s3);
    assert(command_line(tag, login_text(email, password)) =~= s3 + seq!['\r', '\n']);
    assert(seq![tag].push("LOGIN"@).push(email).push(password) =~= seq![
        tag,
        "LOGIN"@,
        email,
        password,
    ]);
}

/// The words of a fetch are its tag, its name, the number of the message, and what is asked for.
pub proof fn a_fetch_says_what(n: nat, uid: u32, what: Seq<char>)
    requires
        forall|i: int| 0 <= i < what.len() ==> !is_space(#[trigger] what[i]),
    ensures
        words_of(command_line(tag_text(n), fetch_text(uid, what))) == seq![
            tag_text(n),
            "UID"@,
            "FETCH"@,
            decimal(uid as nat),
            seq!['('] + what + seq![')'],
        ],
{
    let tag = tag_text(n);
    reveal_strlit("UID FETCH ");
    reveal_strlit("UID");
    reveal_strlit("FETCH");
    reveal_strlit(" (");
    reveal_strlit(")");
    reveal_strlit(" ");
    reveal_strlit("\r\n");
    lemma_tag_word(n);
    let d = decimal(uid as nat);
    let w = seq!['('] + what + seq![')'];
    lemma_digits_only(uid as nat);
    lemma_decimal(uid as nat);
    assert forall|i: int| 0 <= i < w.len() implies !is_space(#[trigger] w[i]) by {
        if 0 < i < w.len() - 1 {
            assert(w[i] == what[i - 1]);
        }
    }
    let s1 = tag + seq![' '] + "UID"@;
    let s2 = s1 + seq![' '] + "FETCH"@;
    let s3 = s2 + seq![' '] + d;
    let s4 = s3 + seq![' '] + w;
    lemma_words_push(tag, "UID"@, 0);
    lemma_words_push(s1, "FETCH"@, 0);
    lemma_words_push(s2, d, 0);
    lemma_words_push(s3, w, 0);
    lemma_words_end(s4);
    assert(command_line(tag, fetch_text(uid, what)) =~= s4 + seq!['\r', '\n']);
    assert(seq![tag].push("UID"@).push("FETCH"@).push(d).push(w) =~= seq![
        tag,
        "UID"@,
        "FETCH"@,
        d,
        w,
    ]);
}

/// A tag is one word.
proof fn lemma_tag_word(n: nat)
    ensures
        words_of(tag_text(n)) == seq![tag_text(n)],
{
    let tag = tag_text(n);
    lemma_digits_only(n);
    let e = tag.len() as int;
    assert forall|i: int| 0 <= i < e implies !is_space(#[trigger] tag[i]) by {
        if i > 0 {
            assert(tag[i] == decimal(n)[i - 1]);
        }
    }
    lemma_next_is(tag, Class::Ink, 0, 0);
    lemma_next_is(tag, Class::Whitespace, 0, e);
    lemma_next_is(tag, Class::Ink, e, e);
    assert(words_from(tag, e) =~= seq![]);
    assert(tag.subrange(0, e) =~= tag);
    assert(words_of(tag) =~= seq![tag]);
}

proof fn lemma_words_end_from(s: Seq<char>, from: int)
    requires
        0 <= from <= s.len(),
    ensures
        words_from(s + seq!['\r', '\n'], from) == words_from(s, from),
    decreases s.len() - from,
{
    let t = s + seq!['\r', '\n'];
    let n = s.len() as int;
    crate::text::lemma_next(s, Class::Ink, from);
    let a = crate::text::next(s, Class::Ink, from);
    assert forall|i: int| from <= i < a implies !Class::Ink.admits(#[trigger] t[i]) by {
        assert(t[i] == s[i]);
    }
    assert(t[n] == '\r' && t[n + 1] == '\n');
    if a < n {
        assert(t[a] == s[a]);
        lemma_next_is(t, Class::Ink, from, a);
        crate::text::lemma_next(s, Class::Whitespace, a);
        let b = crate::text::next(s, Class::Whitespace, a);
        assert forall|i: int| a <= i < b implies !Class::Whitespace.admits(#[trigger] t[i]) by {
            assert(t[i] == s[i]);
        }
        if b < n {
            assert(t[b] == s[b]);
        }
        lemma_next_is(t, Class::Whitespace, a, b);
        lemma_words_end_from(s, b);
        assert(t.subrange(a, b) =~= s.subrange(a, b));
    } else {
        lemma_next_is(t, Class::Ink, from, n + 2);
        assert(words_from(t, from) =~= seq![]);
        assert(words_from(s, from) =~= seq![]);
    }
}

/// The end of a line is no word.
proof fn lemma_words_end(s: Seq<char>)
    ensures
        words_of(s + seq!['\r', '\n']) == words_of(s),
{
    lemma_words_end_from(s, 0);
}

// ───────────────────────── other lines ─────────────────────────

/// A line that means nothing to a command: neither data, nor its end, nor a go-ahead.
pub open spec fn noise(s: Seq<char>) -> bool {
    &&& !s.contains('\n')
    &&& s.len() > 0 ==> s[0] != '*' && s[0] != '+' && s[0] != 'A'
}

proof fn lemma_noise(s: Seq<char>, n: nat)
    requires
        noise(s),
    ensures
        role(s, tag_text(n)) is Other,
{
    let t = tag_text(n);
    if prefixed(s, t) {
        assert(s.subrange(0, t.len() as int)[0] == s[0]);
        assert(t[0] == 'A');
    }
}

/// Lines that mean nothing to a command are passed over, in a reply, in a fetch and in a wait.
pub proof fn other_lines_are_passed_over(
    s: Seq<char>,
    n: nat,
    data: Seq<Seq<char>>,
    body: Option<Seq<u8>>,
    phase: IdlePhase,
    exists: bool,
    rest: Seq<u8>,
)
    requires
        noise(s),
    ensures
        reply(sent_line(s) + rest, tag_text(n), data) == reply(rest, tag_text(n), data),
        fetch_reply(sent_line(s) + rest, tag_text(n), FetchPhase::Lines, body) == fetch_reply(
            rest,
            tag_text(n),
            FetchPhase::Lines,
            body,
        ),
        idle_reply(sent_line(s) + rest, tag_text(n), phase, exists) == idle_reply(
            rest,
            tag_text(n),
            phase,
            exists,
        ),
{
    lemma_noise(s, n);
    lemma_sent_line(s, rest);
}

/// A fetch goes on over lines of data that announce nothing, and of several messages the last one
/// counts.
pub proof fn the_last_literal_is_the_message(
    s: Seq<char>,
    n: nat,
    body: Option<Seq<u8>>,
    head: Seq<char>,
    message: Seq<u8>,
    trailing: Seq<char>,
    rest: Seq<u8>,
)
    requires
        s.len() > 0,
        s[0] == '*',
        !s.contains('\n'),
        !s.contains('{'),
        head.len() > 0,
        head[0] == '*',
        !head.contains('\n'),
        message.len() <= usize::MAX,
        !trailing.contains('\n'),
    ensures
        fetch_reply(sent_line(s) + rest, tag_text(n), FetchPhase::Lines, body) == fetch_reply(
            rest,
            tag_text(n),
            FetchPhase::Lines,
            body,
        ),
        fetch_reply(
            sent_line(announcement(head, message.len())) + message + sent_line(trailing) + rest,
            tag_text(n),
            FetchPhase::Lines,
            body,
        ) == fetch_reply(rest, tag_text(n), FetchPhase::Lines, Some(message)),
{
    let tag = tag_text(n);
    data_is_not_tagged(s, n);
    lemma_sent_line(s, rest);
    assert forall|i: int| 0 <= i < s.len() implies !Class::Is('{').admits(#[trigger] s[i]) by {
        assert(s.contains(s[i]));
    }
    lemma_end_of_is(s, Class::Is('{'), 0);
    assert(literal_len(s) is None);
    let first = announcement(head, message.len());
    let b = sent_line(trailing) + rest;
    let a = message + b;
    let all = sent_line(first) + message + sent_line(trailing) + rest;
    assert(all =~= sent_line(first) + a);
    lemma_announcement(head, message.len());
    assert(first[0] == '*');
    data_is_not_tagged(first, n);
    lemma_sent_line(first, a);
    lemma_sent_line(trailing, rest);
    let len = message.len() as usize;
    assert(a.subrange(0, len as int) =~= message);
    assert(a.subrange(len as int, a.len() as int) =~= b);
    assert(fetch_reply(b, tag, FetchPhase::Trailing, Some(message)) == fetch_reply(
        rest,
        tag,
        FetchPhase::Lines,
        Some(message),
    ));
    assert(fetch_reply(a, tag, FetchPhase::Literal(len), body) == fetch_reply(
        b,
        tag,
        FetchPhase::Trailing,
        Some(message),
    ));
}

/// White space behind the announcement of a message does not matter, and what is no such
/// announcement announces nothing.
pub proof fn announcements_end_their_line(head: Seq<char>, n: nat, pad: Seq<char>, more: Seq<char>)
    requires
        n <= usize::MAX,
        padding(pad),
        more.len() > 0,
        !is_space(more[0]),
        !more.contains('{'),
    ensures
        literal_len(announcement(head, n) + pad) == Some(n as int),
        literal_len(announcement(head, n) + pad + more) is None,
{
    let d = decimal(n);
    let h = head.len() as int;
    lemma_digits_only(n);
    decimal_round_trip(n, usize::MAX as int);
    let s = announcement(head, n) + pad;
    let w = s + more;
    let end = h + 2 + d.len();
    assert(s[h] == '{' && w[h] == '{');
    assert forall|i: int| h + 1 <= i < w.len() implies !Class::Is('{').admits(#[trigger] w[i]) by {
        if i < h + 1 + d.len() {
            assert(w[i] == d[i - h - 1]);
        } else if end <= i < s.len() {
            assert(w[i] == pad[i - end]);
        } else if i >= s.len() {
            assert(w[i] == more[i - s.len()]);
            assert(more.contains(more[i - s.len()]));
        }
    }
    assert forall|i: int| h + 1 <= i < s.len() implies !Class::Is('{').admits(#[trigger] s[i]) by {
        assert(s[i] == w[i]);
    }
    lemma_end_of_is(s, Class::Is('{'), h + 1);
    lemma_end_of_is(w, Class::Is('{'), h + 1);
    let a = s.subrange(h + 1, s.len() as int);
    let b = w.subrange(h + 1, w.len() as int);
    assert(a =~= d + seq!['}'] + pad);
    assert(b =~= d + seq!['}'] + pad + more);
    let e = d.len() as int;
    assert forall|i: int| 0 <= i < e implies !Class::Is('}').admits(#[trigger] a[i]) by {
        assert(a[i] == d[i]);
    }
    assert forall|i: int| 0 <= i < e implies !Class::Is('}').admits(#[trigger] b[i]) by {
        assert(b[i] == d[i]);
    }
    lemma_next_is(a, Class::Is('}'), 0, e);
    lemma_next_is(b, Class::Is('}'), 0, e);
    assert(a.subrange(0, e) =~= d);
    assert(a.subrange(e + 1, a.len() as int) =~= pad);
    let rest = b.subrange(e + 1, b.len() as int);
    assert(rest =~= pad + more);
    assert(rest[pad.len() as int] == more[0]);
    assert(!is_space(rest[pad.len() as int]));
}

/// A server that ends a wait ends it whatever it says of it: before it has pushed anything the wait
/// is over, while it may push it is told to stop, and once it was told so the wait is over, with new
/// mail where some was announced.
pub proof fn a_wait_ends_however_it_is_answered(
    n: nat,
    pad: Seq<char>,
    status: Seq<char>,
    rest: Seq<u8>,
    exists: bool,
)
    requires
        padding(pad),
        is_ascii_chars(status),
        !status.contains('\n'),
        status.len() > 0,
        !is_space(status[0]),
    ensures
        ({
            let b = sent_line(status_line(tag_text(n), pad, status)) + rest;
            let start = idle_reply(b, tag_text(n), IdlePhase::Starting, exists);
            let stop = idle_reply(b, tag_text(n), IdlePhase::Waiting, exists);
            let end = idle_reply(b, tag_text(n), IdlePhase::Finishing, exists);
            &&& start.step == IdleStep::Finish(IdleResult::Timeout)
            &&& stop.step is SendDone && stop.phase is Finishing && stop.exists == exists
            &&& end.step == IdleStep::Finish(
                if exists {
                    IdleResult::Exists
                } else {
                    IdleResult::Timeout
                },
            )
            &&& start.rest == rest && stop.rest == rest && end.rest == rest
        }),
{
    let last = status_line(tag_text(n), pad, status);
    lemma_status(n, pad, status);
    lemma_sent_line(last, rest);
    assert(last[0] == tag_text(n)[0]);
    assert(last[0] == 'A');
}

/// A mark at the start of a line is taken off as often as it stands there, and nothing else is.
pub proof fn marks_are_taken_off(mark: Seq<char>, s: Seq<char>)
    requires
        mark.len() > 0,
    ensures
        stripped(mark + s, mark) == stripped(s, mark),
        s.len() < mark.len() || s.take(mark.len() as int) != mark ==> stripped(s, mark) == s,
{
    let t = mark + s;
    let n = mark.len() as int;
    assert(t.subrange(0, n) =~= mark);
    assert(t.subrange(n, t.len() as int) =~= s);
    if prefixed(s, mark) {
        assert(s.take(n) =~= s.subrange(0, n));
    }
}

} // verus!
