//! The lines of an IMAP dialogue, and what stands on them.
use vstd::prelude::*;
use vstd::slice::slice_subrange;

use crate::mail::mime::{lemma_line_end, lemma_line_end_more, line_end};
use crate::number::{read_unsigned, unsigned};
use crate::text::{
    blank, chars_of, control, end_of, find, find_class, find_end, found_ci, is_control, is_space,
    lemma_blank, lemma_found, lemma_next_is, next, prefixed, push_all, starts_with, string_of,
    to_ascii_lower, trim_start, trimmed_start, whitespace, Class,
};
use crate::unicode::{from_utf8_lossy, to_uppercase, upper_case, lossy_text};

verus! {

/// The strings `a` and `b`, one after the other.
pub fn concat(a: &str, b: &[char]) -> (r: String)
    ensures
        r@ == a@ + b@,
{
    let mut out: Vec<char> = chars_of(a);
    push_all(&mut out, b);
    string_of(out.as_slice())
}

// ───────────────────────── bytes and lines ─────────────────────────

/// A line without the carriage return before its end.
pub open spec fn bare_line(b: Seq<u8>) -> Seq<u8> {
    if b.len() > 0 && b.last() == 13 {
        b.drop_last()
    } else {
        b
    }
}

/// The first line of `b`, without its end, and what follows it. `None` where no line is
/// complete.
pub open spec fn first_line(b: Seq<u8>) -> Option<(Seq<u8>, Seq<u8>)> {
    let k = line_end(b, 0);
    if k < b.len() {
        Some((bare_line(b.subrange(0, k)), b.subrange(k + 1, b.len() as int)))
    } else {
        None
    }
}

/// A line takes at least the byte that ends it.
pub proof fn lemma_first_line(b: Seq<u8>)
    ensures
        first_line(b) matches Some((line, rest)) ==> rest.len() < b.len(),
{
    lemma_line_end(b, 0);
}

/// A complete line stays what it is, however many bytes come after it.
pub proof fn first_line_is_stable(b: Seq<u8>, more: Seq<u8>)
    requires
        first_line(b) is Some,
    ensures
        first_line(b + more) == Some(((first_line(b)->0).0, (first_line(b)->0).1 + more)),
{
    let k = line_end(b, 0);
    lemma_line_end(b, 0);
    lemma_line_end_more(b, more, 0);
    assert((b + more).subrange(0, k) =~= b.subrange(0, k));
    assert((b + more).subrange(k + 1, (b + more).len() as int) =~= b.subrange(k + 1, b.len() as int)
        + more);
}

/// The text that a line is read as.
pub open spec fn line_text(raw: Seq<u8>) -> Seq<char> {
    lossy_text(raw)
}

/// The text that a line is read as.
pub fn read_text(raw: &[u8]) -> (r: Vec<char>)
    ensures
        r@ == line_text(raw@),
{
    chars_of(from_utf8_lossy(raw).as_str())
}

// ───────────────────────── the parts of a line ─────────────────────────

/// What a line is to the command with a given tag.
pub enum Role {
    /// The line that ends the command.
    Tagged,
    /// A line of data.
    Untagged,
    Other,
}

/// What the line `s` is to the command with the tag `tag`.
pub open spec fn role(s: Seq<char>, tag: Seq<char>) -> Role {
    if prefixed(s, tag) {
        Role::Tagged
    } else if s.len() > 0 && s[0] == '*' {
        Role::Untagged
    } else {
        Role::Other
    }
}

/// What the line `s` is to the command with the tag `tag`.
pub fn line_role(s: &[char], tag: &str) -> (r: Role)
    ensures
        r == role(s@, tag@),
{
    if starts_with(s, tag) {
        Role::Tagged
    } else if s.len() > 0 && s[0] == '*' {
        Role::Untagged
    } else {
        Role::Other
    }
}

/// What follows the tag on the line that ends the command.
pub open spec fn after_tag(s: Seq<char>, tag: Seq<char>) -> Seq<char> {
    trimmed_start(s.subrange(tag.len() as int, s.len() as int))
}

/// Whether the line that ends the command says that it was carried out: `OK`, in any case,
/// behind the tag.
pub open spec fn accepted(s: Seq<char>, tag: Seq<char>) -> bool {
    prefixed(upper_case(after_tag(s, tag)), "OK"@)
}

/// The capitals of `s`.
pub fn upper_chars(s: &[char]) -> (r: Vec<char>)
    ensures
        r@ == upper_case(s@),
{
    chars_of(to_uppercase(string_of(s).as_str()).as_str())
}

/// What follows the tag on the line that ends the command.
pub fn status_of<'a>(s: &'a [char], tag: &str) -> (r: &'a [char])
    requires
        prefixed(s@, tag@),
    ensures
        r@ == after_tag(s@, tag@),
{
    let n: usize = chars_of(tag).len();
    trim_start(slice_subrange(s, n, s.len()))
}

/// Whether the line that ends the command says that it was carried out.
pub fn is_accepted(s: &[char], tag: &str) -> (r: bool)
    requires
        prefixed(s@, tag@),
    ensures
        r == accepted(s@, tag@),
{
    starts_with(upper_chars(status_of(s, tag)).as_slice(), "OK")
}

/// `s` in double quotes, with a backslash before each quote and each backslash.
pub open spec fn escaped_quotes(s: Seq<char>) -> Seq<char>
    decreases s.len(),
{
    if s.len() == 0 {
        seq![]
    } else {
        let c = s.last();
        let front = escaped_quotes(s.drop_last());
        if c == '"' || c == '\\' {
            front.push('\\').push(c)
        } else {
            front.push(c)
        }
    }
}

/// A character that cannot stand in a command without quotes: white space, a control character, a
/// double quote or a backslash.
pub open spec fn needs_quotes(c: char) -> bool {
    is_space(c) || is_control(c) || c == '"' || c == '\\'
}

/// Whether `s` can stand in a command without quotes.
pub open spec fn plain_word(s: Seq<char>) -> bool {
    s.len() > 0 && forall|i: int| 0 <= i < s.len() ==> !needs_quotes(#[trigger] s[i])
}

/// `s` as an argument of a command.
pub open spec fn argument(s: Seq<char>) -> Seq<char> {
    if plain_word(s) {
        s
    } else {
        seq!['"'] + escaped_quotes(s) + seq!['"']
    }
}

/// Appends `s` as an argument of a command to `out`.
pub fn quote(out: &mut Vec<char>, s: &str)
    ensures
        final(out)@ == old(out)@ + argument(s@),
{
    let c: Vec<char> = chars_of(s);
    let mut plain: bool = c.len() > 0;
    let mut i: usize = 0;
    while i < c.len() && plain
        invariant
            i <= c@.len(),
            plain ==> c@.len() > 0 && forall|j: int| 0 <= j < i ==> !needs_quotes(#[trigger] c@[j]),
            !plain ==> !plain_word(c@),
        decreases c.len() - i,
    {
        if whitespace(c[i]) || control(c[i]) || c[i] == '"' || c[i] == '\\' {
            plain = false;
            assert(needs_quotes(c@[i as int]));
        }
        i += 1;
    }
    if plain {
        push_all(out, c.as_slice());
        return;
    }
    let ghost before = out@;
    out.push('"');
    let mut k: usize = 0;
    assert(c@.take(0) =~= seq![]);
    while k < c.len()
        invariant
            k <= c@.len(),
            out@ =~= before + seq!['"'] + escaped_quotes(c@.take(k as int)),
        decreases c.len() - k,
    {
        assert(c@.take(k + 1).drop_last() =~= c@.take(k as int));
        if c[k] == '"' || c[k] == '\\' {
            out.push('\\');
        }
        out.push(c[k]);
        k += 1;
    }
    assert(c@.take(k as int) =~= c@);
    out.push('"');
    assert(out@ =~= before + argument(s@));
}

/// `s` without the copies of `p` at its start.
pub open spec fn stripped(s: Seq<char>, p: Seq<char>) -> Seq<char>
    decreases s.len(),
{
    if p.len() > 0 && prefixed(s, p) {
        stripped(s.subrange(p.len() as int, s.len() as int), p)
    } else {
        s
    }
}

/// `s` without the copies of `p` at its start.
pub fn strip_all<'a>(s: &'a [char], p: &str) -> (r: &'a [char])
    requires
        p@.len() > 0,
    ensures
        r@ == stripped(s@, p@),
{
    let n: usize = chars_of(p).len();
    let mut t: &'a [char] = s;
    while starts_with(t, p)
        invariant
            n == p@.len(),
            n > 0,
            stripped(s@, p@) == stripped(t@, p@),
        decreases t@.len(),
    {
        t = slice_subrange(t, n, t.len());
    }
    t
}

/// The length of the literal that the line announces: the number in braces at its end, where
/// nothing but white space may follow.
pub open spec fn literal_len(s: Seq<char>) -> Option<int> {
    let k = end_of(s, Class::Is('{'));
    if k == 0 {
        None
    } else {
        let after = s.subrange(k, s.len() as int);
        let e = next(after, Class::Is('}'), 0);
        if e < after.len() && blank(after.subrange(e + 1, after.len() as int)) {
            unsigned(after.subrange(0, e), 10, usize::MAX as int)
        } else {
            None
        }
    }
}

/// The length of the literal that the line announces.
pub fn parse_literal_len(s: &[char]) -> (r: Option<usize>)
    ensures
        match r {
            Some(n) => literal_len(s@) == Some(n as int),
            None => literal_len(s@) is None,
        },
{
    let k: usize = find_end(s, Class::Is('{'));
    if k == 0 {
        return None;
    }
    let after: &[char] = slice_subrange(s, k, s.len());
    let e: usize = find_class(after, Class::Is('}'), 0);
    if e >= after.len() {
        return None;
    }
    proof {
        lemma_blank(after@.subrange(e + 1, after@.len() as int));
    }
    if trim_start(slice_subrange(after, e + 1, after.len())).len() > 0 {
        return None;
    }
    match read_unsigned(slice_subrange(after, 0, e), 10, usize::MAX as u64) {
        Some(n) => Some(n as usize),
        None => None,
    }
}

/// What stands between the first two double quotes from `from` on.
pub open spec fn in_quotes(s: Seq<char>, from: int) -> Option<Seq<char>> {
    let a = next(s, Class::Is('"'), from);
    let b = next(s, Class::Is('"'), a + 1);
    if a < s.len() && b < s.len() {
        Some(s.subrange(a + 1, b))
    } else {
        None
    }
}

/// The date in a line: what stands in quotes behind the word `INTERNALDATE`, in any case.
pub open spec fn date_in(s: Seq<char>) -> Option<Seq<char>> {
    match found_ci(s, "INTERNALDATE"@, 0) {
        Some(k) => in_quotes(s, k + 12),
        None => None,
    }
}

/// The date in a line.
pub fn extract_internaldate(s: &[char]) -> (r: Option<String>)
    ensures
        match r {
            Some(d) => date_in(s@) == Some(d@),
            None => date_in(s@) is None,
        },
{
    let low: Vec<char> = to_ascii_lower(s);
    let word: Vec<char> = to_ascii_lower(chars_of("INTERNALDATE").as_slice());
    proof {
        reveal_strlit("INTERNALDATE");
        lemma_found(low@, word@, 0);
    }
    let k: usize = match find(low.as_slice(), word.as_slice(), 0) {
        Some(k) => k,
        None => {
            return None;
        },
    };
    let a: usize = find_class(s, Class::Is('"'), k + 12);
    if a >= s.len() {
        return None;
    }
    let b: usize = find_class(s, Class::Is('"'), a + 1);
    if b >= s.len() {
        return None;
    }
    Some(string_of(slice_subrange(s, a + 1, b)))
}

// ───────────────────────── laws ─────────────────────────

/// What an argument in quotes means, read from `i` on, behind its opening quote: up to the closing
/// quote, a backslash giving way to the character behind it. With it comes the place behind the
/// closing quote.
pub open spec fn quoted_from(s: Seq<char>, i: int) -> Option<(Seq<char>, int)>
    decreases s.len() - i,
{
    if i < 0 || i >= s.len() {
        None
    } else if s[i] == '"' {
        Some((seq![], i + 1))
    } else {
        let at = if s[i] == '\\' {
            i + 1
        } else {
            i
        };
        if at < s.len() {
            match quoted_from(s, at + 1) {
                Some((t, e)) => Some((seq![s[at]] + t, e)),
                None => None,
            }
        } else {
            None
        }
    }
}

proof fn lemma_quoted_behind(a: Seq<char>, t: Seq<char>, i: int)
    requires
        0 <= i <= t.len(),
    ensures
        quoted_from(a + t, a.len() + i) == (match quoted_from(t, i) {
            Some((m, e)) => Some((m, a.len() + e)),
            None => None,
        }),
    decreases t.len() - i,
{
    if i < t.len() {
        assert((a + t)[a.len() + i] == t[i]);
        lemma_quoted_behind(a, t, i + 1);
        if i + 1 < t.len() {
            assert((a + t)[a.len() + i + 1] == t[i + 1]);
            lemma_quoted_behind(a, t, i + 2);
        }
    }
}

proof fn lemma_quoted(s: Seq<char>, t: Seq<char>)
    ensures
        quoted_from(escaped_quotes(s) + t, 0) == (match quoted_from(t, 0) {
            Some((m, e)) => Some((s + m, escaped_quotes(s).len() + e)),
            None => None,
        }),
    decreases s.len(),
{
    if s.len() == 0 {
        assert(escaped_quotes(s) + t =~= t);
        if let Some((m, e)) = quoted_from(t, 0) {
            assert(s + m =~= m);
        }
    } else {
        let c = s.last();
        let front = s.drop_last();
        let x = if c == '"' || c == '\\' {
            seq!['\\', c]
        } else {
            seq![c]
        };
        assert(escaped_quotes(s) + t =~= escaped_quotes(front) + (x + t));
        lemma_quoted(front, x + t);
        lemma_quoted_behind(x, t, 0);
        assert((x + t)[0] == x[0]);
        if x.len() == 2 {
            assert((x + t)[1] == c);
        }
        if let Some((m, e)) = quoted_from(t, 0) {
            assert(quoted_from(x + t, 0) == Some((seq![c] + m, x.len() + e)));
            assert(front + (seq![c] + m) =~= s + m);
        }
    }
}

/// An argument in quotes means what was to be sent, whatever quotes and backslashes are in it; and
/// what follows it is no part of it.
pub proof fn quoted_argument_means_itself(s: Seq<char>, rest: Seq<char>)
    requires
        !plain_word(s),
    ensures
        argument(s)[0] == '"',
        quoted_from(argument(s) + rest, 1) == Some((s, argument(s).len() as int)),
{
    let tail = seq!['"'] + rest;
    lemma_quoted(s, tail);
    assert(tail[0] == '"');
    assert(s + Seq::<char>::empty() =~= s);
    lemma_quoted_behind(seq!['"'], escaped_quotes(s) + tail, 0);
    assert(argument(s) + rest =~= seq!['"'] + (escaped_quotes(s) + tail));
}

/// An argument without quotes is the word that was to be sent, up to the white space behind it,
/// and does not start as one in quotes does.
pub proof fn bare_argument_means_itself(s: Seq<char>, rest: Seq<char>)
    requires
        plain_word(s),
        rest.len() > 0 ==> is_space(rest[0]),
    ensures
        argument(s) == s,
        argument(s)[0] != '"',
        next(argument(s) + rest, Class::Whitespace, 0) == s.len(),
{
    let t = s + rest;
    assert(!needs_quotes(s[0]));
    assert forall|j: int| 0 <= j < s.len() implies !Class::Whitespace.admits(#[trigger] t[j]) by {
        assert(t[j] == s[j]);
        assert(!needs_quotes(s[j]));
    }
    lemma_next_is(t, Class::Whitespace, 0, s.len() as int);
}

} // verus!
