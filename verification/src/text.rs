//! Scanning primitives over character sequences.
//!
//! Strings are taken apart into slices of characters once, at the edge; every
//! scanner below then works on positions in such a slice, and its contract
//! speaks of the `Seq<char>` that the slice holds.
use vstd::prelude::*;
use vstd::slice::slice_subrange;

verus! {

// ───────────────────────── character classes ─────────────────────────

/// The classes of characters that the scanners look for.
#[derive(Clone, Copy)]
pub enum Class {
    /// Exactly this character.
    Is(char),
    /// Unicode white space.
    Whitespace,
    /// Anything but Unicode white space.
    Ink,
    /// ASCII digits.
    Digit,
    /// What ends an unquoted header parameter: `;` or ASCII white space.
    ParamEnd,
    /// Anything but a space or a tab.
    NonTab,
    /// Anything but a space, a tab or a newline.
    NonBlank,
    /// Anything but a space, a tab, a carriage return or a newline.
    NonLineSpace,
    /// Anything but a double quote.
    NonQuote,
    /// Anything but a newline.
    NonNewline,
}

/// The characters with the Unicode property `White_Space`.
pub open spec fn is_space(c: char) -> bool {
    ||| '\u{9}' <= c <= '\u{d}'
    ||| c == ' '
    ||| c == '\u{85}'
    ||| c == '\u{a0}'
    ||| c == '\u{1680}'
    ||| '\u{2000}' <= c <= '\u{200a}'
    ||| c == '\u{2028}'
    ||| c == '\u{2029}'
    ||| c == '\u{202f}'
    ||| c == '\u{205f}'
    ||| c == '\u{3000}'
}

/// The white space of the ASCII range (the vertical tab is not part of it).
pub open spec fn is_ascii_space(c: char) -> bool {
    c == ' ' || c == '\t' || c == '\n' || c == '\u{c}' || c == '\r'
}

/// The control characters, C0 and C1.
pub open spec fn is_control(c: char) -> bool {
    c <= '\u{1f}' || '\u{7f}' <= c <= '\u{9f}'
}

pub open spec fn is_digit(c: char) -> bool {
    '0' <= c <= '9'
}

pub open spec fn is_letter(c: char) -> bool {
    'a' <= c <= 'z' || 'A' <= c <= 'Z'
}

impl Class {
    pub open spec fn admits(self, c: char) -> bool {
        match self {
            Class::Is(d) => c == d,
            Class::Whitespace => is_space(c),
            Class::Ink => !is_space(c),
            Class::Digit => is_digit(c),
            Class::ParamEnd => c == ';' || is_ascii_space(c),
            Class::NonTab => c != ' ' && c != '\t',
            Class::NonBlank => c != ' ' && c != '\t' && c != '\n',
            Class::NonLineSpace => c != ' ' && c != '\t' && c != '\r' && c != '\n',
            Class::NonQuote => c != '"',
            Class::NonNewline => c != '\n',
        }
    }

    /// Whether `c` belongs to the class.
    pub fn holds(self, c: char) -> (r: bool)
        ensures
            r == self.admits(c),
    {
        match self {
            Class::Is(d) => c == d,
            Class::Whitespace => whitespace(c),
            Class::Ink => !whitespace(c),
            Class::Digit => '0' <= c && c <= '9',
            Class::ParamEnd => c == ';' || ascii_whitespace(c),
            Class::NonTab => c != ' ' && c != '\t',
            Class::NonBlank => c != ' ' && c != '\t' && c != '\n',
            Class::NonLineSpace => c != ' ' && c != '\t' && c != '\r' && c != '\n',
            Class::NonQuote => c != '"',
            Class::NonNewline => c != '\n',
        }
    }
}

/// Whether `c` is Unicode white space.
pub fn whitespace(c: char) -> (r: bool)
    ensures
        r == is_space(c),
{
    ('\u{9}' <= c && c <= '\u{d}') || c == ' ' || c == '\u{85}' || c == '\u{a0}' || c == '\u{1680}'
        || ('\u{2000}' <= c && c <= '\u{200a}') || c == '\u{2028}' || c == '\u{2029}' || c
        == '\u{202f}' || c == '\u{205f}' || c == '\u{3000}'
}

/// Whether `c` is ASCII white space.
pub fn ascii_whitespace(c: char) -> (r: bool)
    ensures
        r == is_ascii_space(c),
{
    c == ' ' || c == '\t' || c == '\n' || c == '\u{c}' || c == '\r'
}

/// Whether `c` is a control character.
pub fn control(c: char) -> (r: bool)
    ensures
        r == is_control(c),
{
    c <= '\u{1f}' || ('\u{7f}' <= c && c <= '\u{9f}')
}

// ───────────────────────── strings and slices ─────────────────────────

/// The characters of `s`.
pub fn chars_of(s: &str) -> (r: Vec<char>)
    ensures
        r@ == s@,
{
    let mut out: Vec<char> = Vec::new();
    for c in it: s.chars()
        invariant
            out@ == s@.take(it.index()),
            it.seq() == s@,
    {
        assert(s@.take(it.index() + 1) =~= s@.take(it.index()).push(c));
        out.push(c);
    }
    assert(s@.take(s@.len() as int) =~= s@);
    out
}

/// The string that holds the characters `s`.
pub fn string_of(s: &[char]) -> (r: String)
    ensures
        r@ == s@,
{
    let mut out: String = String::new();
    let mut i: usize = 0;
    while i < s.len()
        invariant
            i <= s@.len(),
            out@ == s@.take(i as int),
        decreases s.len() - i,
    {
        assert(s@.take(i + 1) =~= s@.take(i as int).push(s@[i as int]));
        out.push(s[i]);
        i += 1;
    }
    assert(s@.take(i as int) =~= s@);
    out
}

/// A copy of the string.
pub fn copy_string(s: &str) -> (r: String)
    ensures
        r@ == s@,
{
    string_of(chars_of(s).as_slice())
}

/// Appends the characters `s` to `out`.
pub fn push_all(out: &mut Vec<char>, s: &[char])
    ensures
        final(out)@ == old(out)@ + s@,
{
    let ghost before = out@;
    let mut i: usize = 0;
    while i < s.len()
        invariant
            i <= s@.len(),
            out@ == before + s@.take(i as int),
        decreases s.len() - i,
    {
        assert(s@.take(i + 1) =~= s@.take(i as int).push(s@[i as int]));
        out.push(s[i]);
        i += 1;
    }
    assert(s@.take(i as int) =~= s@);
}

/// Appends the string `s` to `out`.
pub fn push_text(out: &mut Vec<char>, s: &str)
    ensures
        final(out)@ == old(out)@ + s@,
{
    let c: Vec<char> = chars_of(s);
    push_all(out, c.as_slice());
}

/// A copy of the slice.
pub fn to_vec(s: &[char]) -> (r: Vec<char>)
    ensures
        r@ == s@,
{
    let mut out: Vec<char> = Vec::new();
    push_all(&mut out, s);
    assert(out@ =~= s@);
    out
}

/// What the slices in `v` hold.
pub open spec fn views(v: Seq<&[char]>) -> Seq<Seq<char>> {
    Seq::new(v.len(), |i: int| v[i]@)
}

/// What the strings in `v` hold.
pub open spec fn texts(v: Seq<String>) -> Seq<Seq<char>> {
    Seq::new(v.len(), |i: int| v[i]@)
}

// ───────────────────────── ASCII case ─────────────────────────

pub open spec fn lower(c: char) -> char {
    if 'A' <= c <= 'Z' {
        ((c as u8) + 32) as u8 as char
    } else {
        c
    }
}

pub open spec fn upper(c: char) -> char {
    if 'a' <= c <= 'z' {
        ((c as u8) - 32) as u8 as char
    } else {
        c
    }
}

pub open spec fn ascii_lower(s: Seq<char>) -> Seq<char> {
    Seq::new(s.len(), |i: int| lower(s[i]))
}

pub open spec fn ascii_upper(s: Seq<char>) -> Seq<char> {
    Seq::new(s.len(), |i: int| upper(s[i]))
}

/// Equality up to the case of ASCII letters.
pub open spec fn same_ci(a: Seq<char>, b: Seq<char>) -> bool {
    ascii_lower(a) == ascii_lower(b)
}

/// `c` with an ASCII capital turned into the small letter.
pub fn to_lower(c: char) -> (r: char)
    ensures
        r == lower(c),
{
    if 'A' <= c && c <= 'Z' {
        ((c as u8) + 32) as char
    } else {
        c
    }
}

/// `s` with its ASCII capitals turned into small letters.
pub fn to_ascii_lower(s: &[char]) -> (r: Vec<char>)
    ensures
        r@ == ascii_lower(s@),
{
    let mut out: Vec<char> = Vec::new();
    let mut i: usize = 0;
    while i < s.len()
        invariant
            i <= s@.len(),
            out@ == ascii_lower(s@).take(i as int),
        decreases s.len() - i,
    {
        assert(ascii_lower(s@).take(i + 1) =~= ascii_lower(s@).take(i as int).push(
            lower(s@[i as int]),
        ));
        out.push(to_lower(s[i]));
        i += 1;
    }
    assert(ascii_lower(s@).take(i as int) =~= ascii_lower(s@));
    out
}

// ───────────────────────── looking for a character ─────────────────────────

/// The first position from `from` on whose character is in `k`; the end of `s` where there
/// is none.
pub open spec fn next(s: Seq<char>, k: Class, from: int) -> int
    decreases s.len() - from,
{
    if 0 <= from < s.len() && !k.admits(s[from]) {
        next(s, k, from + 1)
    } else {
        from
    }
}

/// One past the last position whose character is in `k`; 0 where there is none.
pub open spec fn end_of(s: Seq<char>, k: Class) -> int
    decreases s.len(),
{
    if s.len() > 0 && !k.admits(s.last()) {
        end_of(s.drop_last(), k)
    } else {
        s.len() as int
    }
}

/// What `next` finds is in the class, and nothing before it is.
pub proof fn lemma_next(s: Seq<char>, k: Class, from: int)
    requires
        0 <= from <= s.len(),
    ensures
        from <= next(s, k, from) <= s.len(),
        forall|i: int| from <= i < next(s, k, from) ==> !k.admits(#[trigger] s[i]),
        next(s, k, from) < s.len() ==> k.admits(s[next(s, k, from)]),
    decreases s.len() - from,
{
    if from < s.len() && !k.admits(s[from]) {
        lemma_next(s, k, from + 1);
    }
}

/// The position that `next` finds is the only one of its kind.
pub proof fn lemma_next_is(s: Seq<char>, k: Class, from: int, at: int)
    requires
        0 <= from <= at <= s.len(),
        forall|i: int| from <= i < at ==> !k.admits(#[trigger] s[i]),
        at < s.len() ==> k.admits(s[at]),
    ensures
        next(s, k, from) == at,
    decreases at - from,
{
    if from < at {
        assert(!k.admits(s[from]));
        lemma_next_is(s, k, from + 1, at);
    }
}

/// What `end_of` finds is in the class, and nothing after it is.
pub proof fn lemma_end_of(s: Seq<char>, k: Class)
    ensures
        0 <= end_of(s, k) <= s.len(),
        forall|i: int| end_of(s, k) <= i < s.len() ==> !k.admits(#[trigger] s[i]),
        end_of(s, k) > 0 ==> k.admits(s[end_of(s, k) - 1]),
    decreases s.len(),
{
    if s.len() > 0 && !k.admits(s.last()) {
        lemma_end_of(s.drop_last(), k);
        let e = end_of(s, k);
        assert forall|i: int| e <= i < s.len() implies !k.admits(#[trigger] s[i]) by {
            if i < s.len() - 1 {
                assert(s.drop_last()[i] == s[i]);
            }
        }
    }
}

/// The position that `end_of` finds is the only one of its kind.
pub proof fn lemma_end_of_is(s: Seq<char>, k: Class, at: int)
    requires
        0 <= at <= s.len(),
        forall|i: int| at <= i < s.len() ==> !k.admits(#[trigger] s[i]),
        at > 0 ==> k.admits(s[at - 1]),
    ensures
        end_of(s, k) == at,
    decreases s.len(),
{
    if at < s.len() {
        assert(!k.admits(s[s.len() - 1]));
        assert forall|i: int| at <= i < s.len() - 1 implies !k.admits(
            #[trigger] s.drop_last()[i],
        ) by {
            assert(s.drop_last()[i] == s[i]);
        }
        lemma_end_of_is(s.drop_last(), k, at);
    }
}

/// The first position from `from` on whose character is in `k`, or the length of `s`.
pub fn find_class(s: &[char], k: Class, from: usize) -> (r: usize)
    requires
        from <= s@.len(),
    ensures
        r == next(s@, k, from as int),
        from <= r <= s@.len(),
        r < s@.len() ==> k.admits(s@[r as int]),
        forall|i: int| from <= i < r ==> !k.admits(#[trigger] s@[i]),
{
    let mut i: usize = from;
    while i < s.len() && !k.holds(s[i])
        invariant
            from <= i <= s@.len(),
            forall|j: int| from <= j < i ==> !k.admits(#[trigger] s@[j]),
        decreases s.len() - i,
    {
        i += 1;
    }
    proof {
        lemma_next_is(s@, k, from as int, i as int);
    }
    i
}

/// One past the last position whose character is in `k`, or 0.
pub fn find_end(s: &[char], k: Class) -> (r: usize)
    ensures
        r == end_of(s@, k),
        r <= s@.len(),
{
    let mut e: usize = s.len();
    while e > 0 && !k.holds(s[e - 1])
        invariant
            e <= s@.len(),
            forall|j: int| e <= j < s@.len() ==> !k.admits(#[trigger] s@[j]),
        decreases e,
    {
        e -= 1;
    }
    proof {
        lemma_end_of_is(s@, k, e as int);
    }
    e
}

// ───────────────────────── trimming ─────────────────────────

/// `s` without the characters outside `k` at its start.
pub open spec fn from_class(s: Seq<char>, k: Class) -> Seq<char> {
    s.subrange(next(s, k, 0), s.len() as int)
}

/// `s` without the characters outside `k` at its end.
pub open spec fn upto_class(s: Seq<char>, k: Class) -> Seq<char> {
    s.subrange(0, end_of(s, k))
}

/// `s` without the white space at its start.
pub open spec fn trimmed_start(s: Seq<char>) -> Seq<char> {
    from_class(s, Class::Ink)
}

/// `s` without the white space at its end.
pub open spec fn trimmed_end(s: Seq<char>) -> Seq<char> {
    upto_class(s, Class::Ink)
}

/// `s` without the white space around it.
pub open spec fn trimmed(s: Seq<char>) -> Seq<char> {
    trimmed_end(trimmed_start(s))
}

/// `s` without the characters outside `k` at its start.
pub fn cut_start(s: &[char], k: Class) -> (r: &[char])
    ensures
        r@ == from_class(s@, k),
{
    let a: usize = find_class(s, k, 0);
    slice_subrange(s, a, s.len())
}

/// `s` without the characters outside `k` at its end.
pub fn cut_end(s: &[char], k: Class) -> (r: &[char])
    ensures
        r@ == upto_class(s@, k),
{
    let e: usize = find_end(s, k);
    slice_subrange(s, 0, e)
}

/// `s` without the white space at its start.
pub fn trim_start(s: &[char]) -> (r: &[char])
    ensures
        r@ == trimmed_start(s@),
{
    cut_start(s, Class::Ink)
}

/// `s` without the white space at its end.
pub fn trim_end(s: &[char]) -> (r: &[char])
    ensures
        r@ == trimmed_end(s@),
{
    cut_end(s, Class::Ink)
}

/// `s` without the white space around it.
pub fn trim(s: &[char]) -> (r: &[char])
    ensures
        r@ == trimmed(s@),
{
    trim_end(trim_start(s))
}

/// Whether a text holds nothing but white space.
pub open spec fn blank(s: Seq<char>) -> bool {
    forall|i: int| 0 <= i < s.len() ==> is_space(#[trigger] s[i])
}

/// A text is blank exactly where trimming leaves nothing.
pub proof fn lemma_blank(s: Seq<char>)
    ensures
        blank(s) <==> trimmed(s).len() == 0,
        blank(s) <==> trimmed_start(s).len() == 0,
{
    lemma_next(s, Class::Ink, 0);
    let t = trimmed_start(s);
    lemma_end_of(t, Class::Ink);
    if t.len() > 0 {
        let n = next(s, Class::Ink, 0);
        assert(t[0] == s[n]);
        assert(!is_space(s[n]));
    } else {
        assert forall|i: int| 0 <= i < s.len() implies is_space(#[trigger] s[i]) by {
            assert(!Class::Ink.admits(s[i]));
        }
    }
}

/// Trimming keeps what stands between the first and the last character that is no white
/// space.
pub proof fn lemma_trimmed_is(s: Seq<char>, a: int, b: int)
    requires
        0 <= a < b <= s.len(),
        forall|i: int| 0 <= i < a ==> is_space(#[trigger] s[i]),
        forall|i: int| b <= i < s.len() ==> is_space(#[trigger] s[i]),
        !is_space(s[a]),
        !is_space(s[b - 1]),
    ensures
        trimmed(s) == s.subrange(a, b),
        trimmed_start(s) == s.subrange(a, s.len() as int),
{
    lemma_next_is(s, Class::Ink, 0, a);
    let t = s.subrange(a, s.len() as int);
    assert forall|i: int| b - a <= i < t.len() implies !Class::Ink.admits(#[trigger] t[i]) by {
        assert(is_space(s[a + i]));
    }
    assert(t[b - a - 1] == s[b - 1]);
    lemma_end_of_is(t, Class::Ink, b - a);
    assert(t.subrange(0, b - a) =~= s.subrange(a, b));
}

/// What is left after trimming starts and ends with something else than white space, and stays
/// what it is when it is trimmed again.
pub proof fn lemma_trimmed_twice(s: Seq<char>)
    ensures
        trimmed(trimmed(s)) == trimmed(s),
        trimmed(s).len() > 0 ==> !is_space(trimmed(s)[0]) && !blank(trimmed(s)),
        forall|c: char| trimmed(s).contains(c) ==> #[trigger] s.contains(c),
{
    lemma_next(s, Class::Ink, 0);
    let a = next(s, Class::Ink, 0);
    let t = trimmed_start(s);
    lemma_end_of(t, Class::Ink);
    let u = trimmed(s);
    assert forall|c: char| u.contains(c) implies #[trigger] s.contains(c) by {
        let k = choose|k: int| 0 <= k < u.len() && u[k] == c;
        assert(s[a + k] == c);
    }
    if u.len() > 0 {
        assert(u[0] == s[a]);
        assert(u[u.len() - 1] == t[u.len() - 1]);
        lemma_trimmed_is(u, 0, u.len() as int);
        assert(u.subrange(0, u.len() as int) =~= u);
    } else {
        lemma_next(u, Class::Ink, 0);
        assert(trimmed(u) =~= u);
    }
}

/// White space at the end of a text does not outlive trimming.
pub proof fn lemma_trimmed_push(s: Seq<char>, c: char)
    requires
        is_space(c),
    ensures
        trimmed(s.push(c)) == trimmed(s),
        blank(s.push(c)) == blank(s),
        !blank(s) ==> next(s.push(c), Class::Ink, 0) == next(s, Class::Ink, 0),
        !blank(s) ==> trimmed_start(s.push(c)) == trimmed_start(s).push(c),
{
    lemma_blank(s);
    lemma_blank(s.push(c));
    let u = s.push(c);
    if blank(s) {
        assert(blank(u));
        assert(trimmed(u) =~= trimmed(s));
    } else {
        assert(blank(u) ==> blank(s)) by {
            if blank(u) {
                assert forall|i: int| 0 <= i < s.len() implies is_space(#[trigger] s[i]) by {
                    assert(u[i] == s[i]);
                }
            }
        }
        lemma_next(s, Class::Ink, 0);
        let a = next(s, Class::Ink, 0);
        assert(trimmed_start(s).len() == s.len() - a);
        lemma_end_of(trimmed_start(s), Class::Ink);
        let b = a + end_of(trimmed_start(s), Class::Ink);
        assert forall|i: int| b <= i < s.len() implies is_space(#[trigger] s[i]) by {
            assert(!Class::Ink.admits(trimmed_start(s)[i - a]));
        }
        assert forall|i: int| 0 <= i < a implies is_space(#[trigger] s[i]) by {
            assert(!Class::Ink.admits(s[i]));
        }
        if b == a {
            assert(is_space(s[a]));
            assert(false);
        }
        assert(trimmed_start(s)[b - a - 1] == s[b - 1]);
        lemma_trimmed_is(s, a, b);
        assert forall|i: int| 0 <= i < a implies is_space(#[trigger] u[i]) by {
            assert(u[i] == s[i]);
        }
        assert forall|i: int| b <= i < u.len() implies is_space(#[trigger] u[i]) by {
            if i < s.len() {
                assert(u[i] == s[i]);
            }
        }
        lemma_trimmed_is(u, a, b);
        assert(u.subrange(a, b) =~= s.subrange(a, b));
        assert forall|i: int| 0 <= i < a implies !Class::Ink.admits(#[trigger] u[i]) by {
            assert(is_space(u[i]));
        }
        lemma_next_is(u, Class::Ink, 0, a);
        assert(u.subrange(a, u.len() as int) =~= s.subrange(a, s.len() as int).push(c));
    }
}

// ───────────────────────── looking for a text ─────────────────────────

/// `p` stands in `s` at `i`.
pub open spec fn occurs<T>(s: Seq<T>, p: Seq<T>, i: int) -> bool {
    &&& 0 <= i
    &&& i + p.len() <= s.len()
    &&& s.subrange(i, i + p.len()) == p
}

/// `s` starts with `p`.
pub open spec fn prefixed<T>(s: Seq<T>, p: Seq<T>) -> bool {
    occurs(s, p, 0)
}

/// `p` stands somewhere in `s`.
pub open spec fn within<T>(s: Seq<T>, p: Seq<T>) -> bool {
    exists|i: int| occurs(s, p, i)
}

/// The first place from `from` on where `p` stands in `s`.
pub open spec fn found<T>(s: Seq<T>, p: Seq<T>, from: int) -> Option<int>
    decreases s.len() - from + 1,
{
    if from < 0 || from + p.len() > s.len() {
        None
    } else if occurs(s, p, from) {
        Some(from)
    } else {
        found(s, p, from + 1)
    }
}

/// `p` stands in `s` at `i`, up to the case of ASCII letters.
pub open spec fn occurs_ci(s: Seq<char>, p: Seq<char>, i: int) -> bool {
    occurs(ascii_lower(s), ascii_lower(p), i)
}

/// The first place from `from` on where `p` stands in `s`, up to the case of ASCII letters.
pub open spec fn found_ci(s: Seq<char>, p: Seq<char>, from: int) -> Option<int> {
    found(ascii_lower(s), ascii_lower(p), from)
}

/// What `found` finds is an occurrence, and there is none before it.
pub proof fn lemma_found<T>(s: Seq<T>, p: Seq<T>, from: int)
    requires
        0 <= from,
    ensures
        found(s, p, from) matches Some(i) ==> from <= i && occurs(s, p, i),
        found(s, p, from) matches Some(i) ==> forall|j: int| from <= j < i ==> !occurs(s, p, j),
        found(s, p, from) is None ==> forall|j: int| from <= j ==> !occurs(s, p, j),
    decreases s.len() - from + 1,
{
    if from + p.len() <= s.len() && !occurs(s, p, from) {
        lemma_found(s, p, from + 1);
    }
}

/// The place that `found` finds is the only one of its kind.
pub proof fn lemma_found_at<T>(s: Seq<T>, p: Seq<T>, from: int, at: int)
    requires
        0 <= from <= at,
        occurs(s, p, at),
        forall|j: int| from <= j < at ==> !occurs(s, p, j),
    ensures
        found(s, p, from) == Some(at),
    decreases at - from,
{
    if from < at {
        assert(!occurs(s, p, from));
        lemma_found_at(s, p, from + 1, at);
    }
}

/// `within` is what `found` decides.
pub proof fn lemma_within<T>(s: Seq<T>, p: Seq<T>)
    ensures
        within(s, p) <==> found(s, p, 0) is Some,
{
    lemma_found(s, p, 0);
}

/// Whether `p` stands in `s` at `i`.
pub fn stands_at(s: &[char], p: &[char], i: usize) -> (r: bool)
    ensures
        r == occurs(s@, p@, i as int),
{
    if i > s.len() || p.len() > s.len() - i {
        return false;
    }
    let mut k: usize = 0;
    while k < p.len()
        invariant
            k <= p@.len(),
            i + p.len() <= s.len(),
            forall|j: int| 0 <= j < k ==> s@[i + j] == #[trigger] p@[j],
        decreases p.len() - k,
    {
        if s[i + k] != p[k] {
            assert(s@.subrange(i as int, i + p@.len())[k as int] == s@[i + k]);
            return false;
        }
        k += 1;
    }
    assert(s@.subrange(i as int, i + p@.len()) =~= p@);
    true
}

/// Whether `s` and `t` hold the same characters.
pub fn same(s: &[char], t: &[char]) -> (r: bool)
    ensures
        r == (s@ == t@),
{
    if s.len() != t.len() {
        return false;
    }
    let r: bool = stands_at(s, t, 0);
    assert(s@.subrange(0, s@.len() as int) =~= s@);
    r
}

/// Whether the characters `s` are those of the string `t`.
pub fn is_text(s: &[char], t: &str) -> (r: bool)
    ensures
        r == (s@ == t@),
{
    let c: Vec<char> = chars_of(t);
    same(s, c.as_slice())
}

/// Whether `s` starts with the string `p`.
pub fn starts_with(s: &[char], p: &str) -> (r: bool)
    ensures
        r == prefixed(s@, p@),
{
    let c: Vec<char> = chars_of(p);
    stands_at(s, c.as_slice(), 0)
}

/// The first place from `from` on where `p` stands in `s`.
pub fn find(s: &[char], p: &[char], from: usize) -> (r: Option<usize>)
    ensures
        r is Some <==> found(s@, p@, from as int) is Some,
        r matches Some(i) ==> found(s@, p@, from as int) == Some(i as int) && i + p@.len()
            <= s.len() && from <= i,
{
    let mut i: usize = from;
    while i <= s.len() && p.len() <= s.len() - i
        invariant
            from <= i,
            found(s@, p@, from as int) == found(s@, p@, i as int),
        decreases s.len() - i + 1,
    {
        if stands_at(s, p, i) {
            return Some(i);
        }
        if i == s.len() {
            assert(found(s@, p@, i + 1) is None);
            return None;
        }
        i += 1;
    }
    None
}

/// The first place from `from` on where the string `p` stands in `s`.
pub fn find_text(s: &[char], p: &str, from: usize) -> (r: Option<usize>)
    ensures
        r is Some <==> found(s@, p@, from as int) is Some,
        r matches Some(i) ==> found(s@, p@, from as int) == Some(i as int) && i + p@.len()
            <= s.len() && from <= i,
{
    let c: Vec<char> = chars_of(p);
    find(s, c.as_slice(), from)
}

/// Whether `p` stands somewhere in `s`.
pub fn contains(s: &[char], p: &[char]) -> (r: bool)
    ensures
        r == within(s@, p@),
{
    proof {
        lemma_within(s@, p@);
    }
    find(s, p, 0).is_some()
}

/// Whether the string `p` stands somewhere in `s`.
pub fn contains_text(s: &[char], p: &str) -> (r: bool)
    ensures
        r == within(s@, p@),
{
    let c: Vec<char> = chars_of(p);
    contains(s, c.as_slice())
}

// ───────────────────────── laws ─────────────────────────

/// The letters from A to Z have their small forms, and those from a to z their capitals; nothing else
/// changes.
pub proof fn letters_have_two_cases(n: int, c: char)
    requires
        0 <= n < 26,
    ensures
        lower((65 + n) as u8 as char) == (97 + n) as u8 as char,
        upper((97 + n) as u8 as char) == (65 + n) as u8 as char,
        lower((97 + n) as u8 as char) == (97 + n) as u8 as char,
        upper((65 + n) as u8 as char) == (65 + n) as u8 as char,
        c < 'A' || c > 'Z' ==> lower(c) == c,
        c < 'a' || c > 'z' ==> upper(c) == c,
        is_letter(c) <==> 65 <= c as int <= 90 || 97 <= c as int <= 122,
        is_digit(c) <==> 48 <= c as int <= 57,
{
}

/// The white space of the ASCII range, and which of it counts in configurations and parameters.
pub proof fn spaces_of_ascii(c: char)
    requires
        c <= '\u{7f}',
    ensures
        is_space(c) <==> 9 <= c as int <= 13 || c as int == 32,
        is_ascii_space(c) <==> is_space(c) && c as int != 11,
{
}

/// White space is what Unicode calls so.
pub proof fn spaces_of_unicode(c: char)
    ensures
        is_space(c) <==> {
            let n = c as int;
            ||| 9 <= n <= 13
            ||| n == 0x20
            ||| n == 0x85
            ||| n == 0xa0
            ||| n == 0x1680
            ||| 0x2000 <= n <= 0x200a
            ||| n == 0x2028
            ||| n == 0x2029
            ||| n == 0x202f
            ||| n == 0x205f
            ||| n == 0x3000
        },
        is_control(c) <==> {
            let n = c as int;
            n < 0x20 || 0x7f <= n < 0xa0
        },
{
}

} // verus!
