//! Keeping an account's interval in the configuration file.
//!
//! The interval that last worked is written into the account's block of the file, on a line of
//! its own; every other line stays as it is.
use vstd::prelude::*;

use crate::lines::{
    byte_len, countable, indent, indentation, join_lines, joined, lemma_pieces_countable, pieces,
    split,
};
use crate::mail::config::{
    clean_value, idle_line, is_idle_line, item_line, item_text, key_value, split_kv, text_of_item,
    value_of,
};
use crate::number::{decimal, push_decimal};
use crate::text::{
    blank, chars_of, is_text, lemma_blank, prefixed, push_text, starts_with, string_of, trim_start,
    trimmed_start, views,
};

verus! {

/// The item of a list whose field `email` has the value `key`.
pub open spec fn names_account(line: Seq<char>, key: Seq<char>) -> bool {
    &&& item_line(line)
    &&& key_value(item_text(line)) matches Some((name, raw)) && name == "email"@ && value_of(raw)
        == key
}

/// Whether `line` is the item of a list whose field `email` has the value `key`.
pub fn is_account(line: &[char], key: &str) -> (r: bool)
    ensures
        r == names_account(line@, key@),
{
    if !starts_with(trim_start(line), "- ") {
        return false;
    }
    match split_kv(text_of_item(line)) {
        Some((name, raw)) => is_text(name, "email") && is_text(clean_value(raw), key),
        None => false,
    }
}

/// The first item from line `from` on whose address is `key`.
pub open spec fn block_start(lines: Seq<Seq<char>>, key: Seq<char>, from: int) -> Option<int>
    decreases lines.len() - from,
{
    if from < 0 || from >= lines.len() {
        None
    } else if names_account(lines[from], key) {
        Some(from)
    } else {
        block_start(lines, key, from + 1)
    }
}

/// The first line from `from` on that is not blank and not indented further than `at`: the block of
/// the account is written up to there. A comment that is not indented further belongs to what
/// comes after it.
pub open spec fn block_end(lines: Seq<Seq<char>>, at: nat, from: int) -> int
    decreases lines.len() - from,
{
    if from < 0 || from >= lines.len() {
        from
    } else if !blank(lines[from]) && indentation(lines[from]) <= at {
        from
    } else {
        block_end(lines, at, from + 1)
    }
}

/// The first line from `from` on that is not indented further than `at`, blank lines and comments
/// aside: the fields of the account are read up to there.
pub open spec fn account_end(lines: Seq<Seq<char>>, at: nat, from: int) -> int
    decreases lines.len() - from,
{
    if from < 0 || from >= lines.len() {
        from
    } else if !idle_line(lines[from]) && indentation(lines[from]) <= at {
        from
    } else {
        account_end(lines, at, from + 1)
    }
}

/// The first line in `from..to` that sets the interval.
pub open spec fn interval_line(lines: Seq<Seq<char>>, from: int, to: int) -> Option<int>
    decreases to - from,
{
    if from >= to {
        None
    } else if prefixed(trimmed_start(lines[from]), "last_ok_interval:"@) {
        Some(from)
    } else {
        interval_line(lines, from + 1, to)
    }
}

/// A stretch of `n` spaces.
pub open spec fn spaces(n: nat) -> Seq<char> {
    Seq::new(n, |i: int| ' ')
}

/// The line that sets the interval of an account whose item is indented by `at`.
pub open spec fn new_interval_line(at: nat, interval: u64) -> Seq<char> {
    spaces(at + 2) + "last_ok_interval: "@ + decimal(interval as nat)
        + "   # 由程序维护：上次正常运行的间隔"@
}

/// The lines with the interval of the account whose item is line `start` set: on the first of its
/// lines that sets it, or else on a new line at the end of its block.
pub open spec fn with_interval_line(lines: Seq<Seq<char>>, start: int, interval: u64) -> Seq<
    Seq<char>,
> {
    let at = indentation(lines[start]);
    let line = new_interval_line(at, interval);
    match interval_line(lines, start + 1, account_end(lines, at, start + 1)) {
        Some(k) => lines.update(k, line),
        None => lines.insert(block_end(lines, at, start + 1), line),
    }
}

/// The file with the interval of the account with the address `key` set; `None` where it has
/// no such account.
pub open spec fn saved(text: Seq<char>, key: Seq<char>, interval: u64) -> Option<Seq<char>> {
    let lines = pieces(text, '\n');
    match block_start(lines, key, 0) {
        Some(start) => Some(joined(with_interval_line(lines, start, interval), seq!['\n'])),
        None => None,
    }
}

/// `block_end` stays in the file.
pub proof fn lemma_block_end(lines: Seq<Seq<char>>, at: nat, from: int)
    requires
        0 <= from <= lines.len(),
    ensures
        from <= block_end(lines, at, from) <= lines.len(),
        forall|i: int|
            from <= i < block_end(lines, at, from) ==> blank(#[trigger] lines[i]) || indentation(
                lines[i],
            ) > at,
        block_end(lines, at, from) < lines.len() ==> !blank(lines[block_end(lines, at, from)])
            && indentation(lines[block_end(lines, at, from)]) <= at,
    decreases lines.len() - from,
{
    if from < lines.len() && !(!blank(lines[from]) && indentation(lines[from]) <= at) {
        lemma_block_end(lines, at, from + 1);
    }
}

/// `account_end` stays in the file.
pub proof fn lemma_account_end(lines: Seq<Seq<char>>, at: nat, from: int)
    requires
        0 <= from <= lines.len(),
    ensures
        from <= account_end(lines, at, from) <= lines.len(),
        forall|i: int|
            from <= i < account_end(lines, at, from) ==> idle_line(#[trigger] lines[i])
                || indentation(lines[i]) > at,
    decreases lines.len() - from,
{
    if from < lines.len() && !(!idle_line(lines[from]) && indentation(lines[from]) <= at) {
        lemma_account_end(lines, at, from + 1);
    }
}

/// The item of an account leaves room for the indentation of its fields.
pub proof fn lemma_item_room(line: Seq<char>)
    requires
        item_line(line),
    ensures
        indentation(line) + 2 <= byte_len(line),
{
    let n = crate::text::next(line, crate::text::Class::Ink, 0);
    crate::text::lemma_next(line, crate::text::Class::Ink, 0);
    reveal_strlit("- ");
    let m = line.subrange(0, n);
    let t = trimmed_start(line);
    assert(t.subrange(0, 2) == "- "@);
    assert(t[0] == t.subrange(0, 2)[0]);
    assert(t[1] == t.subrange(0, 2)[1]);
    crate::lines::lemma_byte_len_push(m, t[0]);
    crate::lines::lemma_byte_len_push(m.push(t[0]), t[1]);
    assert(m.push(t[0]).push(t[1]) =~= line.subrange(0, n + 2));
    crate::lines::lemma_byte_len_subrange(line, 0, n + 2);
}

/// Writes the line that sets the interval.
pub fn make_interval_line(at: usize, interval: u64) -> (r: Vec<char>)
    requires
        at + 2 <= usize::MAX,
    ensures
        r@ == new_interval_line(at as nat, interval),
{
    let mut out: Vec<char> = Vec::new();
    let mut i: usize = 0;
    while i < at + 2
        invariant
            at + 2 <= usize::MAX,
            i <= at + 2,
            out@ =~= spaces(i as nat),
        decreases at + 2 - i,
    {
        out.push(' ');
        i += 1;
    }
    push_text(&mut out, "last_ok_interval: ");
    push_decimal(&mut out, interval);
    push_text(&mut out, "   # 由程序维护：上次正常运行的间隔");
    out
}

/// The file with the interval of the account with the address `email_key` set; `None` where
/// it has no such account, so that nothing is to be written.
pub fn save_account_interval(text: &str, email_key: &str, interval: u64) -> (r: Option<String>)
    ensures
        match r {
            Some(s) => saved(text@, email_key@, interval) == Some(s@),
            None => saved(text@, email_key@, interval) is None,
        },
{
    let bytes: usize = text.as_bytes().len();
    let chars: Vec<char> = chars_of(text);
    let mut lines: Vec<&[char]> = split(chars.as_slice(), '\n');
    let ghost v = views(lines@);
    proof {
        lemma_pieces_countable(text@, '\n', 0);
        assert forall|j: int| 0 <= j < v.len() implies countable(#[trigger] v[j]) by {}
    }
    let mut start: usize = 0;
    while start < lines.len()
        invariant_except_break
            start <= lines@.len(),
            v == views(lines@),
            block_start(v, email_key@, 0) == block_start(v, email_key@, start as int),
        ensures
            start <= lines@.len(),
            block_start(v, email_key@, 0) == (if start < lines.len() {
                Some(start as int)
            } else {
                None
            }),
            start < lines.len() ==> names_account(v[start as int], email_key@),
        decreases lines.len() - start,
    {
        assert(v[start as int] == lines@[start as int]@);
        if is_account(lines[start], email_key) {
            break;
        }
        start += 1;
    }
    if start >= lines.len() {
        return None;
    }
    assert(v[start as int] == lines@[start as int]@);
    let at: usize = indent(lines[start]);
    proof {
        lemma_item_room(v[start as int]);
        lemma_block_end(v, at as nat, start + 1);
    }
    let mut end: usize = start + 1;
    while end < lines.len()
        invariant_except_break
            start < end <= lines@.len(),
            v == views(lines@),
            forall|j: int| 0 <= j < v.len() ==> countable(#[trigger] v[j]),
            block_end(v, at as nat, start + 1) == block_end(v, at as nat, end as int),
        ensures
            end == block_end(v, at as nat, start + 1),
        decreases lines.len() - end,
    {
        assert(v[end as int] == lines@[end as int]@);
        proof {
            lemma_blank(v[end as int]);
        }
        let line: &[char] = lines[end];
        if trim_start(line).len() > 0 && indent(line) <= at {
            break;
        }
        end += 1;
    }
    let mut last: usize = start + 1;
    while last < lines.len()
        invariant_except_break
            start < last <= lines@.len(),
            v == views(lines@),
            forall|j: int| 0 <= j < v.len() ==> countable(#[trigger] v[j]),
            account_end(v, at as nat, start + 1) == account_end(v, at as nat, last as int),
        ensures
            start < last <= lines@.len(),
            last == account_end(v, at as nat, start + 1),
        decreases lines.len() - last,
    {
        assert(v[last as int] == lines@[last as int]@);
        if !is_idle_line(lines[last]) && indent(lines[last]) <= at {
            break;
        }
        last += 1;
    }
    let line: Vec<char> = make_interval_line(at, interval);
    let mut k: usize = start + 1;
    while k < last
        invariant_except_break
            start < k <= last <= lines@.len(),
            v == views(lines@),
            interval_line(v, start + 1, last as int) == interval_line(v, k as int, last as int),
        ensures
            start < k <= last,
            interval_line(v, start + 1, last as int) == (if k < last {
                Some(k as int)
            } else {
                None
            }),
        decreases last - k,
    {
        assert(v[k as int] == lines@[k as int]@);
        if starts_with(trim_start(lines[k]), "last_ok_interval:") {
            break;
        }
        k += 1;
    }
    if k < last {
        lines.set(k, line.as_slice());
        assert(views(lines@) =~= v.update(k as int, line@));
    } else {
        lines.insert(end, line.as_slice());
        assert(views(lines@) =~= v.insert(end as int, line@));
    }
    Some(string_of(join_lines(lines.as_slice()).as_slice()))
}

} // verus!
