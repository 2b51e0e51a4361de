//! From HTML and raw mail text to clean plain text.
use vstd::prelude::*;
use vstd::slice::slice_subrange;
use vstd::utf8::{char_u32_cast, is_scalar};

use crate::lines::{
    join_lines, joined, lemma_next_behind, lemma_pieces, pieces, split, split_after_join,
};
use crate::number::{read_unsigned, unsigned};
use crate::text::{
    ascii_lower, blank, chars_of, find, find_class, found_ci, is_letter, is_text, lemma_found,
    lemma_next, lemma_trimmed_twice, next, occurs_ci, stands_at, to_ascii_lower, to_vec, trim,
    trim_end, trimmed, trimmed_end, views, Class,
};

verus! {

// ───────────────────────── tags ─────────────────────────

/// Where the element that opens at `i` ends: an opening tag that starts with `open` (and no
/// letter after it), up to and with the next closing tag `close`, in any case.
pub open spec fn block_end(s: Seq<char>, i: int, open: Seq<char>, close: Seq<char>) -> Option<int> {
    let after = i + open.len();
    let gt = next(s, Class::Is('>'), i);
    if occurs_ci(s, open, i) && !(after < s.len() && is_letter(s[after])) && gt < s.len() {
        match found_ci(s, close, gt + 1) {
            Some(k) => Some(k + close.len()),
            None => None,
        }
    } else {
        None
    }
}

/// Where what is taken out at the `<` at `i` ends: a style or a script with its content, or
/// else a single tag with at least one character in it.
pub open spec fn markup_end(s: Seq<char>, i: int) -> Option<int> {
    let gt = next(s, Class::Is('>'), i);
    match block_end(s, i, "<style"@, "</style>"@) {
        Some(e) => Some(e),
        None => match block_end(s, i, "<script"@, "</script>"@) {
            Some(e) => Some(e),
            None => if gt < s.len() && gt > i + 1 {
                Some(gt + 1)
            } else {
                None
            },
        },
    }
}

pub proof fn lemma_block_end(s: Seq<char>, i: int, open: Seq<char>, close: Seq<char>)
    requires
        0 <= i <= s.len(),
    ensures
        block_end(s, i, open, close) matches Some(e) ==> i < e <= s.len(),
{
    let gt = next(s, Class::Is('>'), i);
    lemma_next(s, Class::Is('>'), i);
    if gt < s.len() {
        lemma_found(ascii_lower(s), ascii_lower(close), gt + 1);
    }
}

pub proof fn lemma_markup_end(s: Seq<char>, i: int)
    requires
        0 <= i <= s.len(),
    ensures
        markup_end(s, i) matches Some(e) ==> i < e <= s.len(),
{
    lemma_block_end(s, i, "<style"@, "</style>"@);
    lemma_block_end(s, i, "<script"@, "</script>"@);
    lemma_next(s, Class::Is('>'), i);
}

/// `s` without its tags, and without the content of styles and scripts. A `<` that starts
/// nothing of the kind stays.
pub open spec fn untagged(s: Seq<char>) -> Seq<char> {
    untagged_from(s, 0)
}

pub open spec fn untagged_from(s: Seq<char>, i: int) -> Seq<char>
    decreases s.len() - i,
{
    if i < 0 || i >= s.len() {
        seq![]
    } else if s[i] == '<' && markup_end(s, i) is Some {
        proof {
            lemma_markup_end(s, i);
        }
        untagged_from(s, markup_end(s, i)->0)
    } else {
        seq![s[i]] + untagged_from(s, i + 1)
    }
}

/// Where the element that opens at `start` ends.
pub fn try_strip_block(
    text: &[char],
    low: &[char],
    start: usize,
    open_prefix: &str,
    close_tag: &str,
) -> (r: Option<usize>)
    requires
        start <= text@.len(),
        low@ == ascii_lower(text@),
    ensures
        match r {
            Some(e) => block_end(text@, start as int, open_prefix@, close_tag@) == Some(e as int)
                && start < e <= text@.len(),
            None => block_end(text@, start as int, open_prefix@, close_tag@) is None,
        },
{
    proof {
        lemma_block_end(text@, start as int, open_prefix@, close_tag@);
    }
    let open: Vec<char> = chars_of(open_prefix);
    let open: Vec<char> = to_ascii_lower(open.as_slice());
    if !stands_at(low, open.as_slice(), start) {
        return None;
    }
    assert(start + open.len() <= text.len());
    let after: usize = start + open.len();
    if after < text.len() {
        let c: char = text[after];
        if ('a' <= c && c <= 'z') || ('A' <= c && c <= 'Z') {
            return None;
        }
    }
    let gt: usize = find_class(text, Class::Is('>'), start);
    if gt >= text.len() {
        return None;
    }
    let close: Vec<char> = chars_of(close_tag);
    let close: Vec<char> = to_ascii_lower(close.as_slice());
    match find(low, close.as_slice(), gt + 1) {
        Some(k) => Some(k + close.len()),
        None => None,
    }
}

/// Takes the tags out of `text`.
pub fn strip_tags(text: &[char]) -> (r: Vec<char>)
    ensures
        r@ == untagged(text@),
{
    let low: Vec<char> = to_ascii_lower(text);
    let mut out: Vec<char> = Vec::new();
    let mut i: usize = 0;
    while i < text.len()
        invariant
            i <= text@.len(),
            low@ == ascii_lower(text@),
            untagged(text@) =~= out@ + untagged_from(text@, i as int),
        decreases text.len() - i,
    {
        if text[i] == '<' {
            if let Some(end) = try_strip_block(text, low.as_slice(), i, "<style", "</style>") {
                i = end;
                continue ;
            }
            if let Some(end) = try_strip_block(text, low.as_slice(), i, "<script", "</script>") {
                i = end;
                continue ;
            }
            let gt: usize = find_class(text, Class::Is('>'), i);
            if gt < text.len() && gt > i + 1 {
                i = gt + 1;
                continue ;
            }
        }
        out.push(text[i]);
        i += 1;
    }
    out
}

// ───────────────────────── entities ─────────────────────────

/// The scalar value that a numeric entity names: `#` and a decimal number, or `#x` or `#X`
/// and a hexadecimal one.
pub open spec fn numeric_entity(e: Seq<char>) -> Option<int> {
    if e.len() == 0 || e[0] != '#' {
        None
    } else if e.len() > 1 && (e[1] == 'x' || e[1] == 'X') {
        unsigned(e.subrange(2, e.len() as int), 16, u32::MAX as int)
    } else {
        unsigned(e.subrange(1, e.len() as int), 10, u32::MAX as int)
    }
}

/// The character that an entity stands for.
pub open spec fn entity(e: Seq<char>) -> Option<char> {
    if e == "amp"@ {
        Some('&')
    } else if e == "lt"@ {
        Some('<')
    } else if e == "gt"@ {
        Some('>')
    } else if e == "quot"@ {
        Some('"')
    } else if e == "apos"@ {
        Some('\'')
    } else if e == "nbsp"@ {
        Some(' ')
    } else {
        match numeric_entity(e) {
            Some(n) => if is_scalar(n as u32) {
                Some((n as u32) as char)
            } else {
                None
            },
            None => None,
        }
    }
}

/// `s` with its entities, each from an `&` to the next `;`, replaced by what they stand
/// for. An `&` that starts no known entity stays.
pub open spec fn unescaped(s: Seq<char>) -> Seq<char> {
    unescaped_from(s, 0)
}

pub open spec fn unescaped_from(s: Seq<char>, i: int) -> Seq<char>
    decreases s.len() - i,
{
    if i < 0 || i >= s.len() {
        seq![]
    } else {
        let semi = next(s, Class::Is(';'), i);
        proof {
            lemma_next(s, Class::Is(';'), i);
        }
        if s[i] == '&' && semi < s.len() && entity(s.subrange(i + 1, semi)) is Some {
            seq![entity(s.subrange(i + 1, semi))->0] + unescaped_from(s, semi + 1)
        } else {
            seq![s[i]] + unescaped_from(s, i + 1)
        }
    }
}

/// The character that `e` (what stands between `&` and `;`) stands for.
pub fn decode_entity(e: &[char]) -> (r: Option<char>)
    ensures
        r == entity(e@),
{
    if is_text(e, "amp") {
        return Some('&');
    }
    if is_text(e, "lt") {
        return Some('<');
    }
    if is_text(e, "gt") {
        return Some('>');
    }
    if is_text(e, "quot") {
        return Some('"');
    }
    if is_text(e, "apos") {
        return Some('\'');
    }
    if is_text(e, "nbsp") {
        return Some(' ');
    }
    if e.len() == 0 || e[0] != '#' {
        return None;
    }
    let code: Option<u64> = if e.len() > 1 && (e[1] == 'x' || e[1] == 'X') {
        read_unsigned(slice_subrange(e, 2, e.len()), 16, u32::MAX as u64)
    } else {
        read_unsigned(slice_subrange(e, 1, e.len()), 10, u32::MAX as u64)
    };
    match code {
        Some(n) => {
            let c: Option<char> = char::from_u32(n as u32);
            proof {
                if let Some(x) = c {
                    char_u32_cast(x, n as u32);
                }
            }
            c
        },
        None => None,
    }
}

/// Replaces the entities in `s`.
pub fn unescape_html(s: &[char]) -> (r: Vec<char>)
    ensures
        r@ == unescaped(s@),
{
    let mut out: Vec<char> = Vec::new();
    let mut i: usize = 0;
    while i < s.len()
        invariant
            i <= s@.len(),
            unescaped(s@) =~= out@ + unescaped_from(s@, i as int),
        decreases s.len() - i,
    {
        if s[i] == '&' {
            let semi: usize = find_class(s, Class::Is(';'), i);
            if semi < s.len() {
                if let Some(c) = decode_entity(slice_subrange(s, i + 1, semi)) {
                    out.push(c);
                    i = semi + 1;
                    continue ;
                }
            }
        }
        out.push(s[i]);
        i += 1;
    }
    out
}

/// The pieces without the white space around them, and without those of which that leaves
/// nothing.
pub open spec fn inked(p: Seq<Seq<char>>) -> Seq<Seq<char>>
    decreases p.len(),
{
    if p.len() == 0 {
        seq![]
    } else if trimmed(p.last()).len() == 0 {
        inked(p.drop_last())
    } else {
        inked(p.drop_last()).push(trimmed(p.last()))
    }
}

/// The text of an HTML document: its lines without tags, entities replaced, trimmed, and
/// without the empty ones.
pub open spec fn html_text(s: Seq<char>) -> Seq<char> {
    joined(inked(pieces(unescaped(untagged(s)), '\n')), seq!['\n'])
}

/// The plain text of an HTML document.
pub fn strip_html(html: &[char]) -> (r: Vec<char>)
    ensures
        r@ == html_text(html@),
{
    let clean: Vec<char> = strip_tags(html);
    let plain: Vec<char> = unescape_html(clean.as_slice());
    let lines: Vec<&[char]> = split(plain.as_slice(), '\n');
    let ghost v = views(lines@);
    let mut kept: Vec<&[char]> = Vec::new();
    let mut i: usize = 0;
    assert(views(kept@) =~= seq![]);
    while i < lines.len()
        invariant
            i <= lines@.len(),
            v == views(lines@),
            views(kept@) == inked(v.take(i as int)),
        decreases lines.len() - i,
    {
        assert(v.take(i + 1).drop_last() =~= v.take(i as int));
        let t: &[char] = trim(lines[i]);
        let ghost before = kept@;
        if t.len() > 0 {
            kept.push(t);
            assert(views(kept@) =~= views(before).push(t@));
        }
        i += 1;
    }
    assert(v.take(i as int) =~= v);
    join_lines(kept.as_slice())
}

// ───────────────────────── plain text ─────────────────────────

/// `s` with every line end written as one newline.
pub open spec fn unix_lines(s: Seq<char>) -> Seq<char> {
    unix_lines_from(s, 0)
}

pub open spec fn unix_lines_from(s: Seq<char>, i: int) -> Seq<char>
    decreases s.len() - i,
{
    if i < 0 || i >= s.len() {
        seq![]
    } else if s[i] == '\r' && i + 1 < s.len() && s[i + 1] == '\n' {
        seq!['\n'] + unix_lines_from(s, i + 2)
    } else if s[i] == '\r' {
        seq!['\n'] + unix_lines_from(s, i + 1)
    } else {
        seq![s[i]] + unix_lines_from(s, i + 1)
    }
}

/// `s` with every run of empty lines taken out: a newline, spaces and tabs, another newline,
/// and all spaces, tabs and newlines after it become one newline.
pub open spec fn folded(s: Seq<char>) -> Seq<char> {
    folded_from(s, 0)
}

pub open spec fn folded_from(s: Seq<char>, i: int) -> Seq<char>
    decreases s.len() - i,
{
    if i < 0 || i >= s.len() {
        seq![]
    } else {
        let j = next(s, Class::NonTab, i + 1);
        proof {
            lemma_next(s, Class::NonTab, i + 1);
            if j < s.len() {
                lemma_next(s, Class::NonBlank, j + 1);
            }
        }
        if s[i] == '\n' && j < s.len() && s[j] == '\n' {
            seq!['\n'] + folded_from(s, next(s, Class::NonBlank, j + 1))
        } else {
            seq![s[i]] + folded_from(s, i + 1)
        }
    }
}

/// The pieces without the white space at their ends.
pub open spec fn ends_trimmed(p: Seq<Seq<char>>) -> Seq<Seq<char>> {
    Seq::new(p.len(), |i: int| trimmed_end(p[i]))
}

/// A plain text made clean: uniform line ends, no empty lines, no white space at the ends
/// of lines nor around the whole.
pub open spec fn cleaned(s: Seq<char>) -> Seq<char> {
    trimmed(joined(ends_trimmed(pieces(folded(unix_lines(s)), '\n')), seq!['\n']))
}

/// Writes every line end as one newline.
pub fn normalize_newlines(s: &[char]) -> (r: Vec<char>)
    ensures
        r@ == unix_lines(s@),
{
    let mut out: Vec<char> = Vec::new();
    let mut i: usize = 0;
    while i < s.len()
        invariant
            i <= s@.len(),
            unix_lines(s@) =~= out@ + unix_lines_from(s@, i as int),
        decreases s.len() - i,
    {
        if s[i] == '\r' {
            out.push('\n');
            if s.len() - i > 1 && s[i + 1] == '\n' {
                i += 2;
            } else {
                i += 1;
            }
        } else {
            out.push(s[i]);
            i += 1;
        }
    }
    out
}

/// Takes out the empty lines.
pub fn fold_blank_lines(s: &[char]) -> (r: Vec<char>)
    ensures
        r@ == folded(s@),
{
    let mut out: Vec<char> = Vec::new();
    let mut i: usize = 0;
    while i < s.len()
        invariant
            i <= s@.len(),
            folded(s@) =~= out@ + folded_from(s@, i as int),
        decreases s.len() - i,
    {
        out.push(s[i]);
        if s[i] == '\n' {
            let j: usize = find_class(s, Class::NonTab, i + 1);
            if j < s.len() && s[j] == '\n' {
                i = find_class(s, Class::NonBlank, j + 1);
                continue ;
            }
        }
        i += 1;
    }
    out
}

/// Makes a plain text clean.
pub fn clean_text(s: &[char]) -> (r: Vec<char>)
    ensures
        r@ == cleaned(s@),
{
    let unix: Vec<char> = normalize_newlines(s);
    let flat: Vec<char> = fold_blank_lines(unix.as_slice());
    let lines: Vec<&[char]> = split(flat.as_slice(), '\n');
    let ghost v = views(lines@);
    let mut kept: Vec<&[char]> = Vec::new();
    let mut i: usize = 0;
    while i < lines.len()
        invariant
            i <= lines@.len(),
            v == views(lines@),
            views(kept@) =~= ends_trimmed(v).take(i as int),
        decreases lines.len() - i,
    {
        let ghost before = kept@;
        kept.push(trim_end(lines[i]));
        assert(views(kept@) =~= views(before).push(trimmed_end(v[i as int])));
        i += 1;
    }
    assert(ends_trimmed(v).take(i as int) =~= ends_trimmed(v));
    let all: Vec<char> = join_lines(kept.as_slice());
    to_vec(trim(all.as_slice()))
}

// ───────────────────────── laws ─────────────────────────

/// A text without `<` has no tags to take out.
pub proof fn text_without_tags_is_kept(s: Seq<char>)
    requires
        !s.contains('<'),
    ensures
        untagged(s) == s,
{
    lemma_untagged_plain(s, 0);
    assert(s.subrange(0, s.len() as int) =~= s);
}

proof fn lemma_untagged_plain(s: Seq<char>, i: int)
    requires
        0 <= i <= s.len(),
        !s.contains('<'),
    ensures
        untagged_from(s, i) == s.subrange(i, s.len() as int),
    decreases s.len() - i,
{
    if i < s.len() {
        assert(s.contains(s[i]));
        lemma_untagged_plain(s, i + 1);
        assert(s.subrange(i, s.len() as int) =~= seq![s[i]] + s.subrange(i + 1, s.len() as int));
    } else {
        assert(s.subrange(i, s.len() as int) =~= seq![]);
    }
}

/// A text without `&` has no entities to replace.
pub proof fn text_without_entities_is_kept(s: Seq<char>)
    requires
        !s.contains('&'),
    ensures
        unescaped(s) == s,
{
    lemma_unescaped_plain(s, 0);
    assert(s.subrange(0, s.len() as int) =~= s);
}

proof fn lemma_unescaped_plain(s: Seq<char>, i: int)
    requires
        0 <= i <= s.len(),
        !s.contains('&'),
    ensures
        unescaped_from(s, i) == s.subrange(i, s.len() as int),
    decreases s.len() - i,
{
    if i < s.len() {
        assert(s.contains(s[i]));
        lemma_unescaped_plain(s, i + 1);
        assert(s.subrange(i, s.len() as int) =~= seq![s[i]] + s.subrange(i + 1, s.len() as int));
    } else {
        assert(s.subrange(i, s.len() as int) =~= seq![]);
    }
}

proof fn lemma_inked(p: Seq<Seq<char>>)
    requires
        forall|i: int| 0 <= i < p.len() ==> !(#[trigger] p[i]).contains('\n'),
    ensures
        forall|i: int|
            0 <= i < inked(p).len() ==> {
                let l = #[trigger] inked(p)[i];
                !l.contains('\n') && !blank(l) && trimmed(l) == l
            },
    decreases p.len(),
{
    if p.len() > 0 {
        let front = p.drop_last();
        assert forall|i: int| 0 <= i < front.len() implies !(#[trigger] front[i]).contains('\n') by {
            assert(front[i] == p[i]);
        }
        lemma_inked(front);
        lemma_trimmed_twice(p.last());
        assert(!p[p.len() - 1].contains('\n'));
        let all = inked(p);
        assert forall|i: int| 0 <= i < all.len() implies {
            let l = #[trigger] all[i];
            !l.contains('\n') && !blank(l) && trimmed(l) == l
        } by {
            if i < inked(front).len() {
                assert(all[i] == inked(front)[i]);
            }
        }
    }
}

/// The text of an HTML document has no blank line, and no line with white space around it.
pub proof fn html_lines_are_trimmed(s: Seq<char>)
    ensures
        html_text(s).len() > 0 ==> forall|i: int|
            0 <= i < pieces(html_text(s), '\n').len() ==> {
                let l = #[trigger] pieces(html_text(s), '\n')[i];
                !blank(l) && trimmed(l) == l
            },
{
    let t = unescaped(untagged(s));
    let p = pieces(t, '\n');
    lemma_pieces(t, '\n', 0);
    lemma_inked(p);
    if inked(p).len() > 0 {
        split_after_join(inked(p), '\n');
    }
}

/// After line ends have been made uniform, no carriage return is left.
pub proof fn no_carriage_return_is_left(s: Seq<char>)
    ensures
        !unix_lines(s).contains('\r'),
{
    lemma_unix_lines(s, 0);
}

proof fn lemma_unix_lines(s: Seq<char>, i: int)
    requires
        0 <= i,
    ensures
        !unix_lines_from(s, i).contains('\r'),
    decreases s.len() - i,
{
    if i < s.len() {
        lemma_unix_lines(s, i + 1);
        if i + 1 < s.len() {
            lemma_unix_lines(s, i + 2);
        }
        let all = unix_lines_from(s, i);
        let a = unix_lines_from(s, i + 1);
        let b = unix_lines_from(s, i + 2);
        if all.contains('\r') {
            let k = choose|k: int| 0 <= k < all.len() && all[k] == '\r';
            if k > 0 {
                if s[i] == '\r' && i + 1 < s.len() && s[i + 1] == '\n' {
                    assert(b[k - 1] == '\r');
                } else {
                    assert(a[k - 1] == '\r');
                }
            }
        }
    }
}

/// The newlines at `i` and `j` have nothing but spaces and tabs between them: there is an empty
/// line.
pub open spec fn empty_line(s: Seq<char>, i: int, j: int) -> bool {
    &&& 0 <= i < j < s.len()
    &&& s[i] == '\n'
    &&& s[j] == '\n'
    &&& next(s, Class::NonTab, i + 1) == j
}

/// After empty lines have been taken out, there are none.
pub proof fn no_empty_line_is_left(s: Seq<char>)
    ensures
        forall|i: int, j: int| !#[trigger] empty_line(folded(s), i, j),
{
    lemma_folded(s, 0);
}

/// What stands first, spaces and tabs aside, in what is left from `i` on is what stood first
/// there, where that is no newline.
proof fn lemma_folded_start(s: Seq<char>, i: int)
    requires
        0 <= i <= s.len(),
    ensures
        ({
            let j = next(s, Class::NonTab, i);
            let f = folded_from(s, i);
            &&& j < s.len() && s[j] != '\n' ==> next(f, Class::NonTab, 0) == j - i && j - i
                < f.len() && f[j - i] == s[j]
            &&& j == s.len() ==> next(f, Class::NonTab, 0) == f.len()
        }),
    decreases s.len() - i,
{
    let f = folded_from(s, i);
    if i < s.len() {
        lemma_folded_start(s, i + 1);
        let rest = folded_from(s, i + 1);
        lemma_next(s, Class::NonTab, i);
        if s[i] == ' ' || s[i] == '\t' {
            assert(f == seq![s[i]] + rest);
            lemma_next_behind(seq![s[i]], rest, Class::NonTab, 0);
            assert(f[0] == s[i]);
            assert(next(f, Class::NonTab, 0) == next(f, Class::NonTab, 1));
            lemma_next(rest, Class::NonTab, 0);
            let j = next(s, Class::NonTab, i);
            if j < s.len() && s[j] != '\n' {
                assert(f[j - i] == rest[j - i - 1]);
            }
        } else if s[i] != '\n' {
            assert(f[0] == s[i]);
        }
    }
}

proof fn lemma_folded(s: Seq<char>, i: int)
    requires
        0 <= i <= s.len(),
    ensures
        forall|a: int, b: int| !#[trigger] empty_line(folded_from(s, i), a, b),
    decreases s.len() - i,
{
    if i < s.len() {
        let f = folded_from(s, i);
        let j = next(s, Class::NonTab, i + 1);
        lemma_next(s, Class::NonTab, i + 1);
        let blank = s[i] == '\n' && j < s.len() && s[j] == '\n';
        if j < s.len() {
            lemma_next(s, Class::NonBlank, j + 1);
        }
        let at = if blank {
            next(s, Class::NonBlank, j + 1)
        } else {
            i + 1
        };
        let rest = folded_from(s, at);
        lemma_folded(s, at);
        lemma_folded_start(s, at);
        let head = seq![s[i]];
        assert(f == head + rest);
        assert forall|a: int, b: int| !#[trigger] empty_line(f, a, b) by {
            if empty_line(f, a, b) {
                if a > 0 {
                    lemma_next_behind(head, rest, Class::NonTab, a);
                    assert(f[a] == rest[a - 1]);
                    assert(f[b] == rest[b - 1]);
                    assert(empty_line(rest, a - 1, b - 1));
                } else {
                    lemma_next_behind(head, rest, Class::NonTab, 0);
                    assert(f[b] == rest[b - 1]);
                    assert(next(rest, Class::NonTab, 0) == b - 1);
                    if blank && at < s.len() {
                        assert(Class::NonBlank.admits(s[at]));
                        assert(next(s, Class::NonTab, at) == at);
                    }
                }
            }
        }
    }
}

} // verus!
