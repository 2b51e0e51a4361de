//! What is left of HTML and of raw mail text: markup goes, and the words stay.
use vstd::prelude::*;
use vstd::utf8::{char_u32_cast, is_scalar};

use crate::lines::{
    join_after_split, joined, lemma_joined_front, lemma_next_behind, pieces, split_after_join,
};
use crate::mail::html::{
    block_end, cleaned, empty_line, ends_trimmed, entity, folded, folded_from, html_text, inked,
    lemma_markup_end, markup_end, numeric_entity, text_without_entities_is_kept,
    text_without_tags_is_kept, unescaped, unescaped_from, unix_lines, unix_lines_from, untagged,
    untagged_from,
};
use crate::number::{
    all_digits, decimal, decimal_round_trip, digit_value, digits_value, hex_digit, lemma_decimal,
    unsigned,
};
use crate::text::{
    ascii_lower, blank, found, found_ci, is_letter, is_space, lemma_blank, lemma_end_of,
    lemma_found, lemma_found_at, lemma_next, lemma_next_is, lemma_trimmed_is, lemma_trimmed_twice,
    lower, next, occurs, occurs_ci, trimmed, trimmed_end, trimmed_start, within, Class,
};

verus! {

// ───────────────────────── looking behind a text ─────────────────────────

proof fn lemma_occurs_behind<T>(a: Seq<T>, t: Seq<T>, p: Seq<T>, i: int)
    requires
        0 <= i,
    ensures
        occurs(a + t, p, a.len() + i) == occurs(t, p, i),
{
    if i + p.len() <= t.len() {
        assert((a + t).subrange(a.len() + i, a.len() + i + p.len()) =~= t.subrange(
            i,
            i + p.len(),
        ));
    }
}

proof fn lemma_found_behind<T>(a: Seq<T>, t: Seq<T>, p: Seq<T>, from: int)
    requires
        0 <= from,
    ensures
        found(a + t, p, a.len() + from) == (match found(t, p, from) {
            Some(i) => Some(a.len() + i),
            None => None,
        }),
    decreases t.len() - from + 1,
{
    lemma_occurs_behind(a, t, p, from);
    if from + p.len() <= t.len() && !occurs(t, p, from) {
        lemma_found_behind(a, t, p, from + 1);
    }
}

proof fn lemma_lower_concat(a: Seq<char>, b: Seq<char>)
    ensures
        ascii_lower(a + b) == ascii_lower(a) + ascii_lower(b),
{
    assert(ascii_lower(a + b) =~= ascii_lower(a) + ascii_lower(b));
}

// ───────────────────────── tags ─────────────────────────

proof fn lemma_block_behind(
    a: Seq<char>,
    t: Seq<char>,
    i: int,
    open: Seq<char>,
    close: Seq<char>,
)
    requires
        0 <= i <= t.len(),
    ensures
        block_end(a + t, a.len() + i, open, close) == (match block_end(t, i, open, close) {
            Some(e) => Some(a.len() + e),
            None => None,
        }),
{
    let n = a.len() as int;
    lemma_lower_concat(a, t);
    lemma_occurs_behind(ascii_lower(a), ascii_lower(t), ascii_lower(open), i);
    lemma_next_behind(a, t, Class::Is('>'), i);
    lemma_next(t, Class::Is('>'), i);
    let gt = next(t, Class::Is('>'), i);
    lemma_found_behind(ascii_lower(a), ascii_lower(t), ascii_lower(close), gt + 1);
    let after = i + open.len();
    if after < t.len() {
        assert((a + t)[n + after] == t[after]);
    }
}

proof fn lemma_markup_behind(a: Seq<char>, t: Seq<char>, i: int)
    requires
        0 <= i <= t.len(),
    ensures
        markup_end(a + t, a.len() + i) == (match markup_end(t, i) {
            Some(e) => Some(a.len() + e),
            None => None,
        }),
{
    lemma_block_behind(a, t, i, "<style"@, "</style>"@);
    lemma_block_behind(a, t, i, "<script"@, "</script>"@);
    lemma_next_behind(a, t, Class::Is('>'), i);
}

proof fn lemma_untagged_behind(a: Seq<char>, t: Seq<char>, i: int)
    requires
        0 <= i <= t.len(),
    ensures
        untagged_from(a + t, a.len() + i) == untagged_from(t, i),
    decreases t.len() - i,
{
    if i < t.len() {
        assert((a + t)[a.len() + i] == t[i]);
        lemma_markup_behind(a, t, i);
        lemma_markup_end(t, i);
        match markup_end(t, i) {
            Some(e) => {
                lemma_untagged_behind(a, t, e);
            },
            None => {},
        }
        lemma_untagged_behind(a, t, i + 1);
    }
}

proof fn lemma_untagged_front(a: Seq<char>, t: Seq<char>, i: int)
    requires
        0 <= i <= a.len(),
        !a.contains('<'),
    ensures
        untagged_from(a + t, i) == a.subrange(i, a.len() as int) + untagged(t),
    decreases a.len() - i,
{
    if i < a.len() {
        assert((a + t)[i] == a[i]);
        assert(a.contains(a[i]));
        lemma_untagged_front(a, t, i + 1);
        assert(a.subrange(i, a.len() as int) =~= seq![a[i]] + a.subrange(i + 1, a.len() as int));
        assert(untagged_from(a + t, i) =~= a.subrange(i, a.len() as int) + untagged(t));
    } else {
        lemma_untagged_behind(a, t, 0);
        assert(a.subrange(i, a.len() as int) + untagged(t) =~= untagged(t));
    }
}

/// What stands between `<` and `>` names the element `name`, in any case: nothing but the name, or
/// the name and then no letter.
pub open spec fn names_element(t: Seq<char>, name: Seq<char>) -> bool {
    &&& name.len() <= t.len()
    &&& ascii_lower(t).subrange(0, name.len() as int) == name
    &&& t.len() > name.len() ==> !is_letter(t[name.len() as int])
}

/// A tag that does not name the element, or whose element is not closed, starts no such element.
proof fn lemma_no_block(t: Seq<char>, rest: Seq<char>, name: Seq<char>, close: Seq<char>)
    requires
        !t.contains('>'),
        name.len() > 0,
        ascii_lower(name) == name,
        forall|i: int| 0 <= i < name.len() ==> #[trigger] name[i] != '>',
        !names_element(t, name) || !within(ascii_lower(rest), ascii_lower(close)),
    ensures
        block_end(seq!['<'] + t + seq!['>'] + rest, 0, seq!['<'] + name, close) is None,
{
    let s = seq!['<'] + t + seq!['>'] + rest;
    let open = seq!['<'] + name;
    let n = name.len() as int;
    let g = t.len() as int + 1;
    let head = seq!['<'] + t + seq!['>'];
    assert forall|i: int| 0 <= i < g implies !Class::Is('>').admits(#[trigger] s[i]) by {
        if i > 0 {
            assert(s[i] == t[i - 1]);
            assert(t.contains(t[i - 1]));
        }
    }
    assert(s[g] == '>');
    lemma_next_is(s, Class::Is('>'), 0, g);
    if occurs_ci(s, open, 0) && !(n + 1 < s.len() && is_letter(s[n + 1])) {
        let low = ascii_lower(s);
        assert forall|i: int| 0 <= i < n implies lower(#[trigger] s[i + 1]) == name[i] by {
            assert(low.subrange(0, n + 1)[i + 1] == low[i + 1]);
            assert(ascii_lower(open)[i + 1] == lower(open[i + 1]));
            assert(ascii_lower(name)[i] == name[i]);
        }
        if t.len() < n {
            assert(s[t.len() as int + 1] == '>');
            assert(name[t.len() as int] == '>');
            assert(false);
        }
        assert forall|i: int| 0 <= i < n implies #[trigger] ascii_lower(t)[i] == name[i] by {
            assert(s[i + 1] == t[i]);
        }
        assert(ascii_lower(t).subrange(0, n) =~= name);
        if t.len() > n {
            assert(s[n + 1] == t[n]);
        }
        assert(names_element(t, name));
        lemma_lower_concat(head, rest);
        lemma_found_behind(ascii_lower(head), ascii_lower(rest), ascii_lower(close), 0);
        lemma_found(ascii_lower(rest), ascii_lower(close), 0);
        assert(s =~= head + rest);
        assert(found_ci(s, close, g + 1) is None);
    }
}

/// A tag is taken out, whatever stands in it, and nothing else is: what comes before it stays, and
/// what comes after it is read on its own. The tag of a style or of a script is an exception only
/// where the element is closed.
pub proof fn tags_are_taken_out(a: Seq<char>, t: Seq<char>, rest: Seq<char>)
    requires
        !a.contains('<'),
        t.len() > 0,
        !t.contains('>'),
        !names_element(t, "style"@) || !within(ascii_lower(rest), "</style>"@),
        !names_element(t, "script"@) || !within(ascii_lower(rest), "</script>"@),
    ensures
        untagged(a + (seq!['<'] + t + seq!['>'] + rest)) == a + untagged(rest),
        html_text(a + (seq!['<'] + t + seq!['>'] + rest)) == html_text(a + rest),
{
    let head = seq!['<'] + t + seq!['>'];
    let s = head + rest;
    reveal_strlit("style");
    reveal_strlit("script");
    reveal_strlit("<style");
    reveal_strlit("<script");
    reveal_strlit("</style>");
    reveal_strlit("</script>");
    assert("<style"@ =~= seq!['<'] + "style"@);
    assert("<script"@ =~= seq!['<'] + "script"@);
    assert(ascii_lower("style"@) =~= "style"@);
    assert(ascii_lower("script"@) =~= "script"@);
    assert(ascii_lower("</style>"@) =~= "</style>"@);
    assert(ascii_lower("</script>"@) =~= "</script>"@);
    lemma_no_block(t, rest, "style"@, "</style>"@);
    lemma_no_block(t, rest, "script"@, "</script>"@);
    let g = t.len() as int + 1;
    assert forall|i: int| 0 <= i < g implies !Class::Is('>').admits(#[trigger] s[i]) by {
        if i > 0 {
            assert(s[i] == t[i - 1]);
            assert(t.contains(t[i - 1]));
        }
    }
    assert(s[g] == '>');
    lemma_next_is(s, Class::Is('>'), 0, g);
    assert(markup_end(s, 0) == Some(g + 1));
    assert(s[0] == '<');
    lemma_untagged_behind(head, rest, 0);
    assert(untagged(s) == untagged(rest));
    lemma_untagged_front(a, s, 0);
    lemma_untagged_front(a, rest, 0);
    assert(a.subrange(0, a.len() as int) =~= a);
}

/// An element that is taken out with its content ends where it is closed first.
proof fn lemma_block(
    open: Seq<char>,
    attributes: Seq<char>,
    content: Seq<char>,
    close: Seq<char>,
    rest: Seq<char>,
    name: Seq<char>,
    tag: Seq<char>,
)
    requires
        ascii_lower(open) == ascii_lower(name),
        ascii_lower(close) == ascii_lower(tag),
        !attributes.contains('>'),
        attributes.len() > 0 ==> !is_letter(attributes[0]),
        forall|i: int| 0 <= i < open.len() ==> #[trigger] open[i] != '>',
        tag.len() > 0,
        ascii_lower(tag)[0] == '<',
        forall|i: int| 0 < i < tag.len() ==> #[trigger] ascii_lower(tag)[i] != '<',
        !within(ascii_lower(content), ascii_lower(tag)),
    ensures
        ({
            let head = open + attributes + seq!['>'] + content + close;
            block_end(head + rest, 0, name, tag) == Some(head.len() as int)
        }),
{
    let front = open + attributes + seq!['>'];
    let head = front + content + close;
    let s = head + rest;
    let n = open.len() as int;
    let g = n + attributes.len();
    assert(open.len() == ascii_lower(open).len());
    assert(name.len() == ascii_lower(name).len());
    assert(close.len() == ascii_lower(close).len());
    assert(tag.len() == ascii_lower(tag).len());
    assert(ascii_lower(s).subrange(0, n) =~= ascii_lower(open));
    assert(occurs_ci(s, name, 0));
    if attributes.len() > 0 {
        assert(s[n] == attributes[0]);
    } else {
        assert(s[n] == '>');
    }
    assert forall|i: int| 0 <= i < g implies !Class::Is('>').admits(#[trigger] s[i]) by {
        if i < n {
            assert(s[i] == open[i]);
        } else {
            assert(s[i] == attributes[i - n]);
            assert(attributes.contains(attributes[i - n]));
        }
    }
    assert(s[g] == '>');
    lemma_next_is(s, Class::Is('>'), 0, g);
    let t = content + close + rest;
    assert(s =~= front + t);
    lemma_lower_concat(front, t);
    lemma_found_behind(ascii_lower(front), ascii_lower(t), ascii_lower(tag), 0);
    let c = content.len() as int;
    let m = tag.len() as int;
    let low = ascii_lower(t);
    assert(low.subrange(c, c + m) =~= ascii_lower(close));
    assert(occurs(low, ascii_lower(tag), c));
    assert forall|j: int| 0 <= j < c implies !occurs(low, ascii_lower(tag), j) by {
        if occurs(low, ascii_lower(tag), j) {
            if j + m <= c {
                assert(ascii_lower(content).subrange(j, j + m) =~= low.subrange(j, j + m));
                assert(occurs(ascii_lower(content), ascii_lower(tag), j));
            } else {
                assert(low.subrange(j, j + m)[c - j] == low[c]);
                assert(low[c] == ascii_lower(close)[0]);
                assert(ascii_lower(tag)[c - j] == '<');
            }
        }
    }
    lemma_found_at(low, ascii_lower(tag), 0, c);
}

/// A style is taken out with its content, and so is a script, up to where the element is closed,
/// whatever its attributes and whatever the case of its tags.
pub proof fn styles_and_scripts_are_taken_out(
    a: Seq<char>,
    script: bool,
    open: Seq<char>,
    attributes: Seq<char>,
    content: Seq<char>,
    close: Seq<char>,
    rest: Seq<char>,
)
    requires
        !a.contains('<'),
        ascii_lower(open) == (if script {
            "<script"@
        } else {
            "<style"@
        }),
        ascii_lower(close) == (if script {
            "</script>"@
        } else {
            "</style>"@
        }),
        !attributes.contains('>'),
        attributes.len() > 0 ==> !is_letter(attributes[0]),
        !within(ascii_lower(content), ascii_lower(close)),
    ensures
        untagged(a + (open + attributes + seq!['>'] + content + close + rest)) == a + untagged(
            rest,
        ),
        html_text(a + (open + attributes + seq!['>'] + content + close + rest)) == html_text(
            a + rest,
        ),
{
    let head = open + attributes + seq!['>'] + content + close;
    let s = head + rest;
    reveal_strlit("<style");
    reveal_strlit("<script");
    reveal_strlit("</style>");
    reveal_strlit("</script>");
    assert(ascii_lower("<style"@) =~= "<style"@);
    assert(ascii_lower("<script"@) =~= "<script"@);
    assert(ascii_lower("</style>"@) =~= "</style>"@);
    assert(ascii_lower("</script>"@) =~= "</script>"@);
    assert(open.len() == ascii_lower(open).len());
    assert forall|i: int| 0 <= i < open.len() implies #[trigger] open[i] != '>' by {
        assert(ascii_lower(open)[i] == lower(open[i]));
    }
    assert(lower(open[0]) == ascii_lower(open)[0]);
    assert(open[0] == '<');
    assert(s[0] == '<');
    if script {
        lemma_block(open, attributes, content, close, rest, "<script"@, "</script>"@);
        assert(ascii_lower(open)[2] == 'c');
        assert(block_end(s, 0, "<style"@, "</style>"@) is None) by {
            if occurs_ci(s, "<style"@, 0) {
                assert(ascii_lower(s).subrange(0, 6)[2] == ascii_lower(s)[2]);
                assert(s[2] == open[2]);
            }
        }
    } else {
        lemma_block(open, attributes, content, close, rest, "<style"@, "</style>"@);
    }
    assert(markup_end(s, 0) == Some(head.len() as int));
    lemma_untagged_behind(head, rest, 0);
    assert(untagged(s) == untagged(rest));
    lemma_untagged_front(a, s, 0);
    lemma_untagged_front(a, rest, 0);
    assert(a.subrange(0, a.len() as int) =~= a);
}

/// A `<` that starts no tag stays: one that no `>` follows, and one that a `>` follows at once.
pub proof fn a_sign_that_starts_no_tag_stays(a: Seq<char>, rest: Seq<char>)
    requires
        !a.contains('<'),
    ensures
        !rest.contains('>') ==> untagged(a + (seq!['<'] + rest)) == a + seq!['<'] + untagged(rest),
        untagged(a + (seq!['<', '>'] + rest)) == a + seq!['<', '>'] + untagged(rest),
{
    reveal_strlit("<style");
    reveal_strlit("<script");
    let s = seq!['<'] + rest;
    lemma_untagged_front(a, s, 0);
    assert(a.subrange(0, a.len() as int) =~= a);
    if !rest.contains('>') {
        assert forall|i: int| 0 <= i < s.len() implies !Class::Is('>').admits(#[trigger] s[i]) by {
            if i > 0 {
                assert(s[i] == rest[i - 1]);
                assert(rest.contains(rest[i - 1]));
            }
        }
        lemma_next_is(s, Class::Is('>'), 0, s.len() as int);
        assert(markup_end(s, 0) is None);
        lemma_untagged_behind(seq!['<'], rest, 0);
        assert(untagged(s) =~= seq!['<'] + untagged(rest));
        assert(a + untagged(s) =~= a + seq!['<'] + untagged(rest));
    }
    let u = seq!['<', '>'] + rest;
    lemma_untagged_front(a, u, 0);
    assert(u[0] == '<' && u[1] == '>');
    lemma_next_is(u, Class::Is('>'), 0, 1);
    assert(!occurs_ci(u, "<style"@, 0)) by {
        if occurs_ci(u, "<style"@, 0) {
            assert(ascii_lower(u).subrange(0, 6)[1] == ascii_lower(u)[1]);
            assert(ascii_lower("<style"@)[1] == 's');
        }
    }
    assert(!occurs_ci(u, "<script"@, 0)) by {
        if occurs_ci(u, "<script"@, 0) {
            assert(ascii_lower(u).subrange(0, 7)[1] == ascii_lower(u)[1]);
            assert(ascii_lower("<script"@)[1] == 's');
        }
    }
    assert(markup_end(u, 0) is None);
    lemma_untagged_behind(seq!['<', '>'], rest, 0);
    assert(untagged_from(u, 1) =~= seq!['>'] + untagged(rest));
    assert(untagged(u) =~= seq!['<', '>'] + untagged(rest));
    assert(a + untagged(u) =~= a + seq!['<', '>'] + untagged(rest));
}

// ───────────────────────── entities ─────────────────────────

proof fn lemma_unescaped_behind(a: Seq<char>, t: Seq<char>, i: int)
    requires
        0 <= i <= t.len(),
    ensures
        unescaped_from(a + t, a.len() + i) == unescaped_from(t, i),
    decreases t.len() - i,
{
    if i < t.len() {
        let n = a.len() as int;
        assert((a + t)[n + i] == t[i]);
        let semi = next(t, Class::Is(';'), i);
        lemma_next(t, Class::Is(';'), i);
        lemma_next_behind(a, t, Class::Is(';'), i);
        if t[i] == '&' && semi < t.len() {
            assert(semi > i);
            assert((a + t).subrange(n + i + 1, n + semi) =~= t.subrange(i + 1, semi));
            lemma_unescaped_behind(a, t, semi + 1);
        }
        lemma_unescaped_behind(a, t, i + 1);
    }
}

proof fn lemma_unescaped_front(a: Seq<char>, t: Seq<char>, i: int)
    requires
        0 <= i <= a.len(),
        !a.contains('&'),
    ensures
        unescaped_from(a + t, i) == a.subrange(i, a.len() as int) + unescaped(t),
    decreases a.len() - i,
{
    if i < a.len() {
        assert((a + t)[i] == a[i]);
        assert(a.contains(a[i]));
        lemma_unescaped_front(a, t, i + 1);
        assert(unescaped_from(a + t, i) =~= a.subrange(i, a.len() as int) + unescaped(t));
    } else {
        lemma_unescaped_behind(a, t, 0);
        assert(a.subrange(i, a.len() as int) + unescaped(t) =~= unescaped(t));
    }
}

proof fn lemma_entity_read(a: Seq<char>, e: Seq<char>, rest: Seq<char>)
    requires
        !a.contains('&'),
        !e.contains(';'),
    ensures
        unescaped(a + (seq!['&'] + e + seq![';'] + rest)) == a + (match entity(e) {
            Some(c) => seq![c] + unescaped(rest),
            None => seq!['&'] + unescaped(e + seq![';'] + rest),
        }),
{
    let head = seq!['&'] + e + seq![';'];
    let s = head + rest;
    lemma_unescaped_front(a, s, 0);
    assert(a.subrange(0, a.len() as int) =~= a);
    let k = e.len() as int + 1;
    assert forall|i: int| 0 <= i < k implies !Class::Is(';').admits(#[trigger] s[i]) by {
        if i > 0 {
            assert(s[i] == e[i - 1]);
            assert(e.contains(e[i - 1]));
        }
    }
    assert(s[k] == ';');
    lemma_next_is(s, Class::Is(';'), 0, k);
    assert(s[0] == '&');
    assert(s.subrange(1, k) =~= e);
    lemma_unescaped_behind(head, rest, 0);
    let t = e + seq![';'] + rest;
    assert(s =~= seq!['&'] + t);
    lemma_unescaped_behind(seq!['&'], t, 0);
}

/// `n` in hexadecimal, without leading zeros.
pub open spec fn hexadecimal(n: nat) -> Seq<char>
    decreases n,
{
    if n < 16 {
        seq![hex_digit(n as int) as char]
    } else {
        hexadecimal(n / 16).push(hex_digit((n % 16) as int) as char)
    }
}

proof fn lemma_hexadecimal(n: nat)
    ensures
        hexadecimal(n).len() > 0,
        all_digits(hexadecimal(n), 16),
        digits_value(hexadecimal(n), 16) == n,
        forall|i: int|
            0 <= i < hexadecimal(n).len() ==> #[trigger] hexadecimal(n)[i] != ';' && hexadecimal(
                n,
            )[i] != '+',
    decreases n,
{
    let s = hexadecimal(n);
    if n < 16 {
        assert(s.drop_last() =~= seq![]);
        assert(digits_value(s.drop_last(), 16) == 0);
    } else {
        lemma_hexadecimal(n / 16);
        assert(s.drop_last() =~= hexadecimal(n / 16));
        assert forall|i: int| 0 <= i < s.len() implies digit_value(#[trigger] s[i], 16) is Some
            && s[i] != ';' && s[i] != '+' by {
            if i < s.len() - 1 {
                assert(s[i] == hexadecimal(n / 16)[i]);
            }
        }
    }
}

/// The named entities stand for the characters that HTML reserves, and for a space.
pub proof fn named_entities_are_replaced(a: Seq<char>, rest: Seq<char>)
    requires
        !a.contains('&'),
    ensures
        unescaped(a + ("&amp;"@ + rest)) == a + (seq!['&'] + unescaped(rest)),
        unescaped(a + ("&lt;"@ + rest)) == a + (seq!['<'] + unescaped(rest)),
        unescaped(a + ("&gt;"@ + rest)) == a + (seq!['>'] + unescaped(rest)),
        unescaped(a + ("&quot;"@ + rest)) == a + (seq!['"'] + unescaped(rest)),
        unescaped(a + ("&apos;"@ + rest)) == a + (seq!['\''] + unescaped(rest)),
        unescaped(a + ("&nbsp;"@ + rest)) == a + (seq![' '] + unescaped(rest)),
{
    reveal_strlit("amp");
    reveal_strlit("lt");
    reveal_strlit("gt");
    reveal_strlit("quot");
    reveal_strlit("apos");
    reveal_strlit("nbsp");
    reveal_strlit("&amp;");
    reveal_strlit("&lt;");
    reveal_strlit("&gt;");
    reveal_strlit("&quot;");
    reveal_strlit("&apos;");
    reveal_strlit("&nbsp;");
    assert("&amp;"@ =~= seq!['&'] + "amp"@ + seq![';']);
    assert("&lt;"@ =~= seq!['&'] + "lt"@ + seq![';']);
    assert("&gt;"@ =~= seq!['&'] + "gt"@ + seq![';']);
    assert("&quot;"@ =~= seq!['&'] + "quot"@ + seq![';']);
    assert("&apos;"@ =~= seq!['&'] + "apos"@ + seq![';']);
    assert("&nbsp;"@ =~= seq!['&'] + "nbsp"@ + seq![';']);
    assert("amp"@.len() == 3 && "lt"@.len() == 2 && "gt"@.len() == 2 && "quot"@.len() == 4
        && "apos"@.len() == 4 && "nbsp"@.len() == 4);
    assert("lt"@[0] == 'l' && "gt"@[0] == 'g');
    assert("quot"@[0] == 'q' && "apos"@[0] == 'a' && "nbsp"@[0] == 'n');
    lemma_entity_read(a, "amp"@, rest);
    lemma_entity_read(a, "lt"@, rest);
    lemma_entity_read(a, "gt"@, rest);
    lemma_entity_read(a, "quot"@, rest);
    lemma_entity_read(a, "apos"@, rest);
    lemma_entity_read(a, "nbsp"@, rest);
}

/// An entity with a number stands for the character with that number, in decimal and in
/// hexadecimal alike.
pub proof fn numeric_entities_are_replaced(a: Seq<char>, c: char, rest: Seq<char>)
    requires
        !a.contains('&'),
    ensures
        unescaped(a + (seq!['&'] + (seq!['#'] + decimal(c as nat)) + seq![';'] + rest)) == a + (
        seq![c] + unescaped(rest)),
        unescaped(a + (seq!['&'] + (seq!['#', 'x'] + hexadecimal(c as nat)) + seq![';'] + rest))
            == a + (seq![c] + unescaped(rest)),
        unescaped(a + (seq!['&'] + (seq!['#', 'X'] + hexadecimal(c as nat)) + seq![';'] + rest))
            == a + (seq![c] + unescaped(rest)),
{
    let n = c as nat;
    reveal_strlit("amp");
    reveal_strlit("lt");
    reveal_strlit("gt");
    reveal_strlit("quot");
    reveal_strlit("apos");
    reveal_strlit("nbsp");
    let d = seq!['#'] + decimal(n);
    lemma_decimal(n);
    decimal_round_trip(n, u32::MAX as int);
    assert(d.subrange(1, d.len() as int) =~= decimal(n));
    assert forall|i: int| 0 <= i < d.len() implies #[trigger] d[i] != ';' by {
        if i > 0 {
            assert(d[i] == decimal(n)[i - 1]);
            assert(digit_value(decimal(n)[i - 1], 10) is Some);
        }
    }
    assert(d[0] == '#');
    assert(d[1] == decimal(n)[0]);
    assert(digit_value(decimal(n)[0], 10) is Some);
    lemma_numeric(d, c);
    lemma_entity_read(a, d, rest);
    lemma_hexadecimal(n);
    let h = hexadecimal(n);
    let x = seq!['#', 'x'] + h;
    let y = seq!['#', 'X'] + h;
    assert(x.subrange(2, x.len() as int) =~= h);
    assert(y.subrange(2, y.len() as int) =~= h);
    assert(unsigned(h, 16, u32::MAX as int) == Some(n as int));
    assert forall|i: int| 0 <= i < x.len() implies #[trigger] x[i] != ';' && y[i] != ';' by {
        if i > 1 {
            assert(x[i] == h[i - 2]);
            assert(y[i] == h[i - 2]);
        }
    }
    assert(!y.contains(';')) by {
        assert forall|i: int| 0 <= i < y.len() implies #[trigger] y[i] != ';' by {
            assert(x[i] != ';');
        }
    }
    lemma_numeric(x, c);
    lemma_numeric(y, c);
    lemma_entity_read(a, x, rest);
    lemma_entity_read(a, y, rest);
}

proof fn lemma_numeric(e: Seq<char>, c: char)
    requires
        e.len() > 0,
        e[0] == '#',
        numeric_entity(e) == Some(c as int),
    ensures
        entity(e) == Some(c),
{
    reveal_strlit("amp");
    reveal_strlit("lt");
    reveal_strlit("gt");
    reveal_strlit("quot");
    reveal_strlit("apos");
    reveal_strlit("nbsp");
    assert("amp"@[0] == 'a' && "lt"@[0] == 'l' && "gt"@[0] == 'g' && "quot"@[0] == 'q'
        && "apos"@[0] == 'a' && "nbsp"@[0] == 'n');
    vstd::utf8::char_is_scalar(c);
    char_u32_cast(c, c as u32);
    assert(is_scalar(c as u32));
}

/// An `&` that starts no entity stays: one that no `;` follows, and one that starts a name that
/// HTML texts do not use here.
pub proof fn an_ampersand_that_starts_no_entity_stays(a: Seq<char>, e: Seq<char>, rest: Seq<char>)
    requires
        !a.contains('&'),
    ensures
        !rest.contains(';') ==> unescaped(a + (seq!['&'] + rest)) == a + (seq!['&'] + unescaped(
            rest,
        )),
        !e.contains(';') && (e.len() == 0 || e[0] != '#') && e != "amp"@ && e != "lt"@ && e != "gt"@
            && e != "quot"@ && e != "apos"@ && e != "nbsp"@ ==> unescaped(
            a + (seq!['&'] + e + seq![';'] + rest),
        ) == a + (seq!['&'] + unescaped(e + seq![';'] + rest)),
{
    if !rest.contains(';') {
        let s = seq!['&'] + rest;
        lemma_unescaped_front(a, s, 0);
        assert(a.subrange(0, a.len() as int) =~= a);
        assert forall|i: int| 0 <= i < s.len() implies !Class::Is(';').admits(#[trigger] s[i]) by {
            if i > 0 {
                assert(s[i] == rest[i - 1]);
                assert(rest.contains(rest[i - 1]));
            }
        }
        lemma_next_is(s, Class::Is(';'), 0, s.len() as int);
        lemma_unescaped_behind(seq!['&'], rest, 0);
    }
    if !e.contains(';') {
        lemma_entity_read(a, e, rest);
    }
}

// ───────────────────────── what stays ─────────────────────────

/// The characters of a text that are no white space.
pub open spec fn ink(s: Seq<char>) -> Seq<char>
    decreases s.len(),
{
    if s.len() == 0 {
        seq![]
    } else if is_space(s.last()) {
        ink(s.drop_last())
    } else {
        ink(s.drop_last()).push(s.last())
    }
}

proof fn lemma_ink_concat(a: Seq<char>, b: Seq<char>)
    ensures
        ink(a + b) == ink(a) + ink(b),
    decreases b.len(),
{
    if b.len() == 0 {
        assert(a + b =~= a);
        assert(ink(a) + ink(b) =~= ink(a));
    } else {
        lemma_ink_concat(a, b.drop_last());
        assert((a + b).drop_last() =~= a + b.drop_last());
        assert((a + b).last() == b.last());
        assert(ink(a + b) =~= ink(a) + ink(b));
    }
}

proof fn lemma_ink_blank(s: Seq<char>)
    requires
        blank(s),
    ensures
        ink(s) == Seq::<char>::empty(),
    decreases s.len(),
{
    if s.len() > 0 {
        assert(is_space(s[s.len() - 1]));
        assert(blank(s.drop_last())) by {
            assert forall|i: int| 0 <= i < s.len() - 1 implies is_space(
                #[trigger] s.drop_last()[i],
            ) by {
                assert(s.drop_last()[i] == s[i]);
            }
        }
        lemma_ink_blank(s.drop_last());
    }
}

proof fn lemma_ink_one(c: char, rest: Seq<char>)
    ensures
        ink(seq![c] + rest) == (if is_space(c) {
            ink(rest)
        } else {
            seq![c] + ink(rest)
        }),
{
    lemma_ink_concat(seq![c], rest);
    assert(seq![c].drop_last() =~= seq![]);
    assert(ink(seq![c].drop_last()) =~= seq![]);
    if is_space(c) {
        assert(ink(seq![c]) + ink(rest) =~= ink(rest));
    } else {
        assert(ink(seq![c]) =~= seq![c]);
    }
}

/// Skipping white space loses nothing.
proof fn lemma_ink_skip(s: Seq<char>, i: int, j: int)
    requires
        0 <= i <= j <= s.len(),
        forall|k: int| i <= k < j ==> is_space(#[trigger] s[k]),
    ensures
        ink(s.subrange(i, s.len() as int)) == ink(s.subrange(j, s.len() as int)),
    decreases j - i,
{
    if i < j {
        lemma_ink_skip(s, i + 1, j);
        let rest = s.subrange(i + 1, s.len() as int);
        assert(s.subrange(i, s.len() as int) =~= seq![s[i]] + rest);
        lemma_ink_one(s[i], rest);
    }
}

proof fn lemma_ink_trimmed(s: Seq<char>)
    ensures
        ink(trimmed(s)) == ink(s),
        ink(trimmed_end(s)) == ink(s),
{
    let n = s.len() as int;
    lemma_next(s, Class::Ink, 0);
    let a = next(s, Class::Ink, 0);
    assert forall|k: int| 0 <= k < a implies is_space(#[trigger] s[k]) by {
        assert(!Class::Ink.admits(s[k]));
    }
    lemma_ink_skip(s, 0, a);
    assert(s.subrange(0, n) =~= s);
    lemma_ink_end(trimmed_start(s));
    lemma_ink_end(s);
}

proof fn lemma_ink_end(t: Seq<char>)
    ensures
        ink(trimmed_end(t)) == ink(t),
{
    lemma_end_of(t, Class::Ink);
    let e = crate::text::end_of(t, Class::Ink);
    let tail = t.subrange(e, t.len() as int);
    assert(blank(tail)) by {
        assert forall|k: int| 0 <= k < tail.len() implies is_space(#[trigger] tail[k]) by {
            assert(!Class::Ink.admits(t[e + k]));
        }
    }
    lemma_ink_blank(tail);
    assert(t =~= t.subrange(0, e) + tail);
    lemma_ink_concat(t.subrange(0, e), tail);
    assert(ink(t.subrange(0, e)) + ink(tail) =~= ink(t.subrange(0, e)));
}

proof fn lemma_ink_unix(s: Seq<char>, i: int)
    requires
        0 <= i <= s.len(),
    ensures
        ink(unix_lines_from(s, i)) == ink(s.subrange(i, s.len() as int)),
    decreases s.len() - i,
{
    let n = s.len() as int;
    if i < n {
        let rest = s.subrange(i + 1, n);
        assert(s.subrange(i, n) =~= seq![s[i]] + rest);
        lemma_ink_one(s[i], rest);
        lemma_ink_unix(s, i + 1);
        lemma_ink_one('\n', unix_lines_from(s, i + 1));
        lemma_ink_one(s[i], unix_lines_from(s, i + 1));
        if i + 1 < n {
            lemma_ink_unix(s, i + 2);
            assert(rest =~= seq![s[i + 1]] + s.subrange(i + 2, n));
            lemma_ink_one(s[i + 1], s.subrange(i + 2, n));
            lemma_ink_one('\n', unix_lines_from(s, i + 2));
        }
    } else {
        assert(s.subrange(i, n) =~= seq![]);
    }
}

proof fn lemma_ink_folded(s: Seq<char>, i: int)
    requires
        0 <= i <= s.len(),
    ensures
        ink(folded_from(s, i)) == ink(s.subrange(i, s.len() as int)),
    decreases s.len() - i,
{
    let n = s.len() as int;
    if i < n {
        let rest = s.subrange(i + 1, n);
        assert(s.subrange(i, n) =~= seq![s[i]] + rest);
        lemma_ink_one(s[i], rest);
        lemma_ink_folded(s, i + 1);
        lemma_ink_one(s[i], folded_from(s, i + 1));
        let j = next(s, Class::NonTab, i + 1);
        lemma_next(s, Class::NonTab, i + 1);
        if s[i] == '\n' && j < n && s[j] == '\n' {
            lemma_next(s, Class::NonBlank, j + 1);
            let e = next(s, Class::NonBlank, j + 1);
            assert forall|k: int| i + 1 <= k < e implies is_space(#[trigger] s[k]) by {
                if k < j {
                    assert(!Class::NonTab.admits(s[k]));
                } else if k > j {
                    assert(!Class::NonBlank.admits(s[k]));
                }
            }
            lemma_ink_skip(s, i + 1, e);
            lemma_ink_folded(s, e);
            lemma_ink_one('\n', folded_from(s, e));
        }
    } else {
        assert(s.subrange(i, n) =~= seq![]);
    }
}

/// Lines whose characters, white space aside, are the same join to texts of which that is true.
proof fn lemma_ink_joined(a: Seq<Seq<char>>, b: Seq<Seq<char>>)
    requires
        a.len() == b.len(),
        forall|i: int| 0 <= i < a.len() ==> ink(#[trigger] a[i]) == ink(b[i]),
    ensures
        ink(joined(a, seq!['\n'])) == ink(joined(b, seq!['\n'])),
    decreases a.len(),
{
    if a.len() > 1 {
        let sep = seq!['\n'];
        let x = a.drop_last();
        let y = b.drop_last();
        assert forall|i: int| 0 <= i < x.len() implies ink(#[trigger] x[i]) == ink(y[i]) by {
            assert(x[i] == a[i]);
            assert(y[i] == b[i]);
        }
        lemma_ink_joined(x, y);
        lemma_ink_concat(joined(x, sep) + sep, a.last());
        lemma_ink_concat(joined(x, sep), sep);
        lemma_ink_concat(joined(y, sep) + sep, b.last());
        lemma_ink_concat(joined(y, sep), sep);
        assert(ink(a[a.len() - 1]) == ink(b[b.len() - 1]));
    } else if a.len() == 1 {
        assert(ink(a[0]) == ink(b[0]));
    }
}

proof fn lemma_ink_inked(p: Seq<Seq<char>>)
    ensures
        ink(joined(inked(p), seq!['\n'])) == ink(joined(p, seq!['\n'])),
    decreases p.len(),
{
    if p.len() > 0 {
        let sep = seq!['\n'];
        let front = p.drop_last();
        lemma_ink_inked(front);
        lemma_ink_trimmed(p.last());
        let t = trimmed(p.last());
        let f = inked(front);
        // What the front joins to, and what the whole does.
        lemma_ink_concat(joined(front, sep) + sep, p.last());
        lemma_ink_concat(joined(front, sep), sep);
        lemma_ink_blank(sep);
        assert(ink(joined(front, sep)) + ink(sep) =~= ink(joined(front, sep)));
        if p.len() == 1 {
            assert(front =~= seq![]);
            assert(joined(p, sep) == p.last());
            assert(ink(joined(front, sep)) =~= seq![]);
            assert(ink(joined(front, sep)) + ink(p.last()) =~= ink(p.last()));
        }
        assert(ink(joined(p, sep)) == ink(joined(front, sep)) + ink(p.last()));
        if t.len() == 0 {
            assert(ink(t) =~= seq![]);
            assert(ink(joined(front, sep)) + ink(t) =~= ink(joined(front, sep)));
        } else {
            let all = f.push(t);
            assert(all.drop_last() =~= f);
            lemma_ink_concat(joined(f, sep) + sep, t);
            lemma_ink_concat(joined(f, sep), sep);
            assert(ink(joined(f, sep)) + ink(sep) =~= ink(joined(f, sep)));
            if f.len() == 0 {
                assert(joined(all, sep) == t);
                assert(ink(joined(f, sep)) =~= seq![]);
                assert(ink(joined(f, sep)) + ink(t) =~= ink(t));
            }
            assert(ink(joined(all, sep)) == ink(joined(f, sep)) + ink(t));
        }
    }
}

/// Making a text clean changes nothing but its white space: every other character stays, in its
/// order, and none is added.
pub proof fn cleaning_keeps_every_character(s: Seq<char>)
    ensures
        ink(cleaned(s)) == ink(s),
{
    let n = s.len() as int;
    let u = unix_lines(s);
    let f = folded(u);
    let p = pieces(f, '\n');
    lemma_ink_unix(s, 0);
    assert(s.subrange(0, n) =~= s);
    lemma_ink_folded(u, 0);
    assert(u.subrange(0, u.len() as int) =~= u);
    let e = ends_trimmed(p);
    assert forall|i: int| 0 <= i < p.len() implies ink(#[trigger] p[i]) == ink(e[i]) by {
        lemma_ink_trimmed(p[i]);
    }
    lemma_ink_joined(p, e);
    join_after_split(f, '\n');
    lemma_ink_trimmed(joined(e, seq!['\n']));
}

/// Nothing of an HTML text is lost but its markup, and nothing is added: its characters, white
/// space aside, are those of the document without tags and with its entities replaced.
pub proof fn html_keeps_every_character(s: Seq<char>)
    ensures
        ink(html_text(s)) == ink(unescaped(untagged(s))),
        !s.contains('<') && !s.contains('&') ==> ink(html_text(s)) == ink(s),
{
    let t = unescaped(untagged(s));
    lemma_ink_inked(pieces(t, '\n'));
    join_after_split(t, '\n');
    if !s.contains('<') && !s.contains('&') {
        text_without_tags_is_kept(s);
        text_without_entities_is_kept(s);
    }
}

proof fn lemma_no_ink(s: Seq<char>)
    requires
        ink(s).len() == 0,
    ensures
        blank(s),
    decreases s.len(),
{
    if s.len() > 0 {
        lemma_no_ink(s.drop_last());
        assert forall|i: int| 0 <= i < s.len() implies is_space(#[trigger] s[i]) by {
            if i < s.len() - 1 {
                assert(s.drop_last()[i] == s[i]);
            }
        }
    }
}

/// Nothing is left of a blank text, and something of any other.
pub proof fn only_blank_texts_vanish(s: Seq<char>)
    ensures
        cleaned(s).len() == 0 <==> blank(s),
{
    cleaning_keeps_every_character(s);
    let x = joined(ends_trimmed(pieces(folded(unix_lines(s)), '\n')), seq!['\n']);
    lemma_trimmed_twice(x);
    if blank(s) {
        lemma_ink_blank(s);
        lemma_no_ink(cleaned(s));
    }
    if cleaned(s).len() == 0 {
        assert(cleaned(s) =~= seq![]);
        lemma_no_ink(s);
    }
}

// ───────────────────────── lines ─────────────────────────

/// Lines without the white space around them.
pub open spec fn all_trimmed(lines: Seq<Seq<char>>) -> Seq<Seq<char>> {
    Seq::new(lines.len(), |i: int| trimmed(lines[i]))
}

proof fn lemma_inked_full(p: Seq<Seq<char>>)
    requires
        forall|i: int| 0 <= i < p.len() ==> !blank(#[trigger] p[i]),
    ensures
        inked(p) == all_trimmed(p),
    decreases p.len(),
{
    if p.len() > 0 {
        let front = p.drop_last();
        assert forall|i: int| 0 <= i < front.len() implies !blank(#[trigger] front[i]) by {
            assert(front[i] == p[i]);
        }
        lemma_inked_full(front);
        assert(!blank(p[p.len() - 1]));
        lemma_blank(p.last());
        assert(inked(p) =~= all_trimmed(p));
    } else {
        assert(inked(p) =~= all_trimmed(p));
    }
}

proof fn lemma_inked_concat(a: Seq<Seq<char>>, b: Seq<Seq<char>>)
    ensures
        inked(a + b) == inked(a) + inked(b),
    decreases b.len(),
{
    if b.len() == 0 {
        assert(a + b =~= a);
        assert(inked(a) + inked(b) =~= inked(a));
    } else {
        lemma_inked_concat(a, b.drop_last());
        assert((a + b).drop_last() =~= a + b.drop_last());
        assert((a + b).last() == b.last());
        assert(inked(a + b) =~= inked(a) + inked(b));
    }
}

/// Text that can stand on a line of HTML as it is.
pub open spec fn html_line(s: Seq<char>) -> bool {
    !s.contains('\n') && !s.contains('<') && !s.contains('&')
}

proof fn lemma_html_lines(lines: Seq<Seq<char>>)
    requires
        lines.len() > 0,
        forall|i: int| 0 <= i < lines.len() ==> html_line(#[trigger] lines[i]),
    ensures
        html_text(joined(lines, seq!['\n'])) == joined(inked(lines), seq!['\n']),
{
    let s = joined(lines, seq!['\n']);
    lemma_joined_holds(lines, '<');
    lemma_joined_holds(lines, '&');
    text_without_tags_is_kept(s);
    text_without_entities_is_kept(s);
    split_after_join(lines, '\n');
}

proof fn lemma_joined_holds(lines: Seq<Seq<char>>, c: char)
    requires
        c != '\n',
        forall|i: int| 0 <= i < lines.len() ==> !(#[trigger] lines[i]).contains(c),
    ensures
        !joined(lines, seq!['\n']).contains(c),
    decreases lines.len(),
{
    let s = joined(lines, seq!['\n']);
    if lines.len() == 1 {
        assert(!lines[0].contains(c));
    } else if lines.len() > 1 {
        let front = lines.drop_last();
        assert forall|i: int| 0 <= i < front.len() implies !(#[trigger] front[i]).contains(c) by {
            assert(front[i] == lines[i]);
        }
        lemma_joined_holds(front, c);
        let f = joined(front, seq!['\n']);
        let l = lines.last();
        assert(!lines[lines.len() - 1].contains(c));
        assert forall|k: int| 0 <= k < s.len() implies #[trigger] s[k] != c by {
            if k < f.len() {
                assert(s[k] == f[k]);
                assert(f.contains(f[k]));
            } else if k > f.len() {
                assert(s[k] == l[k - f.len() - 1]);
                assert(l.contains(l[k - f.len() - 1]));
            }
        }
    }
}

/// The lines of an HTML text stay lines, in their order, without the white space around them.
pub proof fn html_lines_are_kept(lines: Seq<Seq<char>>)
    requires
        lines.len() > 0,
        forall|i: int| 0 <= i < lines.len() ==> html_line(#[trigger] lines[i]) && !blank(lines[i]),
    ensures
        html_text(joined(lines, seq!['\n'])) == joined(all_trimmed(lines), seq!['\n']),
{
    lemma_html_lines(lines);
    lemma_inked_full(lines);
}

/// A blank line of an HTML text is as good as none.
pub proof fn blank_html_lines_vanish(
    before: Seq<Seq<char>>,
    empty: Seq<char>,
    after: Seq<Seq<char>>,
)
    requires
        before.len() + after.len() > 0,
        forall|i: int| 0 <= i < before.len() ==> html_line(#[trigger] before[i]),
        forall|i: int| 0 <= i < after.len() ==> html_line(#[trigger] after[i]),
        html_line(empty),
        blank(empty),
    ensures
        html_text(joined(before + seq![empty] + after, seq!['\n'])) == html_text(
            joined(before + after, seq!['\n']),
        ),
{
    let with = before + seq![empty] + after;
    let without = before + after;
    assert forall|i: int| 0 <= i < with.len() implies html_line(#[trigger] with[i]) by {
        if i < before.len() {
            assert(with[i] == before[i]);
        } else if i > before.len() {
            assert(with[i] == after[i - before.len() - 1]);
        }
    }
    assert forall|i: int| 0 <= i < without.len() implies html_line(#[trigger] without[i]) by {
        if i < before.len() {
            assert(without[i] == before[i]);
        } else {
            assert(without[i] == after[i - before.len()]);
        }
    }
    lemma_html_lines(with);
    lemma_html_lines(without);
    lemma_inked_concat(before + seq![empty], after);
    lemma_inked_concat(before, seq![empty]);
    lemma_inked_concat(before, after);
    lemma_blank(empty);
    assert(seq![empty].drop_last() =~= seq![]);
    assert(seq![empty].last() == empty);
    assert(inked(seq![empty].drop_last()) =~= seq![]);
    assert(inked(seq![empty]) =~= seq![]);
    assert(inked(before) + inked(seq![empty]) =~= inked(before));
}

proof fn lemma_unix_behind(a: Seq<char>, t: Seq<char>, i: int)
    requires
        0 <= i <= t.len(),
    ensures
        unix_lines_from(a + t, a.len() + i) == unix_lines_from(t, i),
    decreases t.len() - i,
{
    if i < t.len() {
        assert((a + t)[a.len() + i] == t[i]);
        lemma_unix_behind(a, t, i + 1);
        if i + 1 < t.len() {
            assert((a + t)[a.len() + i + 1] == t[i + 1]);
            lemma_unix_behind(a, t, i + 2);
        }
    }
}

proof fn lemma_unix_front(a: Seq<char>, t: Seq<char>, i: int)
    requires
        0 <= i <= a.len(),
        !a.contains('\r'),
    ensures
        unix_lines_from(a + t, i) == a.subrange(i, a.len() as int) + unix_lines(t),
    decreases a.len() - i,
{
    if i < a.len() {
        assert((a + t)[i] == a[i]);
        assert(a.contains(a[i]));
        lemma_unix_front(a, t, i + 1);
        assert(unix_lines_from(a + t, i) =~= a.subrange(i, a.len() as int) + unix_lines(t));
    } else {
        lemma_unix_behind(a, t, 0);
        assert(a.subrange(i, a.len() as int) + unix_lines(t) =~= unix_lines(t));
    }
}

/// A line of a text: no line end in it, and no white space at its end.
pub open spec fn text_line(s: Seq<char>) -> bool {
    s.len() > 0 && !s.contains('\r') && !s.contains('\n') && !is_space(s[s.len() - 1])
}

proof fn lemma_unix_joined(lines: Seq<Seq<char>>, sep: Seq<char>)
    requires
        lines.len() > 0,
        forall|i: int| 0 <= i < lines.len() ==> !(#[trigger] lines[i]).contains('\r'),
        sep == seq!['\n'] || sep == seq!['\r', '\n'] || sep == seq!['\r'],
        sep == seq!['\r'] ==> forall|i: int| 0 <= i < lines.len() ==> text_line(#[trigger] lines[i]),
    ensures
        unix_lines(joined(lines, sep)) == joined(lines, seq!['\n']),
    decreases lines.len(),
{
    let first = lines[0];
    assert(!first.contains('\r'));
    if lines.len() == 1 {
        lemma_unix_front(first, seq![], 0);
        assert(first + Seq::<char>::empty() =~= first);
        assert(first.subrange(0, first.len() as int) + unix_lines(seq![]) =~= first);
    } else {
        let rest = lines.subrange(1, lines.len() as int);
        assert(lines =~= seq![first] + rest);
        assert forall|i: int| 0 <= i < rest.len() implies !(#[trigger] rest[i]).contains('\r') by {
            assert(rest[i] == lines[i + 1]);
        }
        if sep == seq!['\r'] {
            assert forall|i: int| 0 <= i < rest.len() implies text_line(#[trigger] rest[i]) by {
                assert(rest[i] == lines[i + 1]);
            }
        }
        lemma_unix_joined(rest, sep);
        lemma_joined_front(first, rest, sep);
        lemma_joined_front(first, rest, seq!['\n']);
        let t = joined(rest, sep);
        assert(first + sep + t =~= first + (sep + t));
        lemma_unix_front(first, sep + t, 0);
        assert(first.subrange(0, first.len() as int) =~= first);
        lemma_unix_behind(sep, t, 0);
        if sep == seq!['\r'] {
            lemma_joined_start(rest, sep);
            assert(text_line(rest[0]));
            assert(t[0] == rest[0][0]);
            assert(rest[0].contains(rest[0][0]));
        }
        if sep == seq!['\n'] {
            assert((sep + t)[0] == '\n');
        } else {
            assert((sep + t)[0] == '\r');
            if sep.len() == 2 {
                assert((sep + t)[1] == '\n');
            } else if t.len() > 0 {
                assert((sep + t)[1] == t[0]);
            }
        }
        assert(unix_lines(sep + t) =~= seq!['\n'] + unix_lines(t));
        assert(first + (seq!['\n'] + unix_lines(t)) =~= first + seq!['\n'] + unix_lines(t));
    }
}

proof fn lemma_joined_start(lines: Seq<Seq<char>>, sep: Seq<char>)
    requires
        lines.len() > 0,
        lines[0].len() > 0,
    ensures
        joined(lines, sep).len() > 0,
        joined(lines, sep)[0] == lines[0][0],
    decreases lines.len(),
{
    if lines.len() > 1 {
        lemma_joined_start(lines.drop_last(), sep);
    }
}

proof fn lemma_joined_end(lines: Seq<Seq<char>>, sep: Seq<char>)
    requires
        lines.len() > 0,
        lines.last().len() > 0,
    ensures
        joined(lines, sep).len() > 0,
        joined(lines, sep).last() == lines.last().last(),
{
}

/// A text without empty lines has none to take out.
proof fn lemma_folded_is(s: Seq<char>, i: int)
    requires
        0 <= i <= s.len(),
        forall|a: int, b: int| !#[trigger] empty_line(s, a, b),
    ensures
        folded_from(s, i) == s.subrange(i, s.len() as int),
    decreases s.len() - i,
{
    if i < s.len() {
        let j = next(s, Class::NonTab, i + 1);
        lemma_next(s, Class::NonTab, i + 1);
        if s[i] == '\n' && j < s.len() && s[j] == '\n' {
            assert(empty_line(s, i, j));
        }
        lemma_folded_is(s, i + 1);
        assert(s.subrange(i, s.len() as int) =~= seq![s[i]] + s.subrange(i + 1, s.len() as int));
    } else {
        assert(s.subrange(i, s.len() as int) =~= seq![]);
    }
}

/// Lines that hold something leave no empty line between them.
proof fn lemma_no_empty_line(lines: Seq<Seq<char>>)
    requires
        lines.len() > 0,
        forall|i: int| 0 <= i < lines.len() ==> text_line(#[trigger] lines[i]),
    ensures
        forall|a: int, b: int| !#[trigger] empty_line(joined(lines, seq!['\n']), a, b),
    decreases lines.len(),
{
    let s = joined(lines, seq!['\n']);
    let last = lines.last();
    assert(text_line(lines[lines.len() - 1]));
    if lines.len() == 1 {
        assert forall|a: int, b: int| !#[trigger] empty_line(s, a, b) by {
            if empty_line(s, a, b) {
                assert(last.contains(s[a]));
            }
        }
    } else {
        let front = lines.drop_last();
        assert forall|i: int| 0 <= i < front.len() implies text_line(#[trigger] front[i]) by {
            assert(front[i] == lines[i]);
        }
        lemma_no_empty_line(front);
        let f = joined(front, seq!['\n']);
        lemma_joined_end(front, seq!['\n']);
        assert(text_line(front[front.len() - 1]));
        let n = f.len() as int;
        assert forall|a: int, b: int| !#[trigger] empty_line(s, a, b) by {
            if empty_line(s, a, b) {
                lemma_next(s, Class::NonTab, a + 1);
                if b > n {
                    assert(s[b] == last[b - n - 1]);
                    assert(last.contains(last[b - n - 1]));
                } else if b == n {
                    assert(s[n - 1] == f[n - 1]);
                    if a < n - 1 {
                        assert(!Class::NonTab.admits(s[n - 1]));
                    } else {
                        assert(f[n - 1] == '\n');
                    }
                } else {
                    assert(f[a] == s[a] && f[b] == s[b]);
                    assert forall|k: int| a + 1 <= k < b implies !Class::NonTab.admits(
                        #[trigger] f[k],
                    ) by {
                        assert(s[k] == f[k]);
                        assert(!Class::NonTab.admits(s[k]));
                    }
                    lemma_next_is(f, Class::NonTab, a + 1, b);
                    assert(empty_line(f, a, b));
                }
            }
        }
    }
}

/// A clean text stays what it is, line by line, however its lines end: with a newline, a carriage
/// return and a newline, or a carriage return.
pub proof fn clean_lines_are_kept(lines: Seq<Seq<char>>, sep: Seq<char>)
    requires
        lines.len() > 0,
        forall|i: int| 0 <= i < lines.len() ==> text_line(#[trigger] lines[i]),
        !is_space(lines[0][0]),
        sep == seq!['\n'] || sep == seq!['\r', '\n'] || sep == seq!['\r'],
    ensures
        cleaned(joined(lines, sep)) == joined(lines, seq!['\n']),
{
    let s = joined(lines, seq!['\n']);
    assert forall|i: int| 0 <= i < lines.len() implies !(#[trigger] lines[i]).contains('\r')
        && !lines[i].contains('\n') by {
        assert(text_line(lines[i]));
    }
    lemma_unix_joined(lines, sep);
    lemma_no_empty_line(lines);
    lemma_folded_is(s, 0);
    assert(s.subrange(0, s.len() as int) =~= s);
    split_after_join(lines, '\n');
    assert(ends_trimmed(lines) =~= lines) by {
        assert forall|i: int| 0 <= i < lines.len() implies trimmed_end(#[trigger] lines[i])
            == lines[i] by {
            let l = lines[i];
            assert(text_line(l));
            crate::text::lemma_end_of_is(l, Class::Ink, l.len() as int);
            assert(l.subrange(0, l.len() as int) =~= l);
        }
    }
    assert(text_line(lines[0]));
    assert(text_line(lines[lines.len() - 1]));
    lemma_joined_start(lines, seq!['\n']);
    lemma_joined_end(lines, seq!['\n']);
    lemma_trimmed_is(s, 0, s.len() as int);
}

} // verus!
